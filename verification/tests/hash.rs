use std::hash::BuildHasher;

use ledger_pending::hash::{hash_u128, hash_u64};
use rustc_hash::FxBuildHasher;

#[test]
fn a_key_hashes_as_the_hasher_does() {
    for key in [0u128, 1, 7, 1 << 63, 1 << 64, 1 << 100, u128::MAX, 0x1234_5678_9abc_def0_0fed] {
        assert_eq!(hash_u128(key), FxBuildHasher.hash_one(key));
        assert_eq!(hash_u64(key as u64), FxBuildHasher.hash_one(key as u64));
    }
}
