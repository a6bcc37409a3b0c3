use duplicate_encoder::strategy::{encode, validate_strategy, Strategy};

#[test]
fn every_strategy_gives_the_same_output() {
    let strategies = [
        Strategy::Sequential,
        Strategy::ChunkedSequential(4),
        Strategy::ChunkedParallel(4),
        Strategy::Streaming,
    ];
    for text in ["", "din", "recede", "Success", "(( @"] {
        let reference = encode(text, Strategy::Sequential);
        for strategy in strategies {
            assert_eq!(encode(text, strategy), reference);
        }
    }
}

#[test]
fn strategy_encode_matches_fixtures() {
    assert_eq!(encode("Success", Strategy::Streaming), ")())())");
    assert_eq!(encode("recede", Strategy::ChunkedParallel(2)), "()()()");
    assert_eq!(encode("din", Strategy::ChunkedSequential(1)), "(((");
}

#[test]
fn zero_chunk_size_is_rejected_up_front() {
    assert!(!validate_strategy(Strategy::ChunkedSequential(0)));
    assert!(!validate_strategy(Strategy::ChunkedParallel(0)));
    assert!(validate_strategy(Strategy::ChunkedSequential(1)));
    assert!(validate_strategy(Strategy::ChunkedParallel(128)));
    assert!(validate_strategy(Strategy::Sequential));
    assert!(validate_strategy(Strategy::Streaming));
}
