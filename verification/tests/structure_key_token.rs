use kiss_conformance::structure_key::{from_token, KeyDecline};

#[test]
fn a_read_token_writes_back_byte_for_byte() {
    let t = "sk3|bin|f32|cuda:sm89|ix32|warp|r1|co/00/v4/d16/f|-";
    let k = from_token(t).expect("a valid token reads");
    assert_eq!(k.rank, 1);
    assert_eq!(k.to_token(), t);
    let top = "sk3|bin|f32|cuda:sm89|ix32|warp|r8|co/00/v4/d16/f|-";
    assert_eq!(from_token(top).expect("rank 8 reads").to_token(), top);
}

#[test]
fn the_rank_field_takes_only_the_canonical_spelling() {
    for rank in ["r01", "r+1", "r", "r00", "r-1", "r08"] {
        let t = format!("sk3|bin|f32|cuda:sm89|ix32|warp|{rank}|co/00/v4/d16/f|-");
        assert_eq!(from_token(&t).err(), Some(KeyDecline::BadRank), "{rank}");
    }
    let zero = "sk3|bin|f32|cuda:sm89|ix32|warp|r0|co/00/v4/d16/f|-";
    assert_eq!(from_token(zero).expect("rank 0 reads").to_token(), zero);
}
