use std::str::FromStr;
use zero_copy_cache::data_structures::{CacheType, ZccError};

#[test]
fn cache_type_from_lower_case_names() {
    assert_eq!(CacheType::from_str("ondemandlru"), Ok(CacheType::OnDemandLru));
    assert_eq!(CacheType::from_str("timestamplru"), Ok(CacheType::TimestampLru));
    assert_eq!(CacheType::from_str("linkedlistlru"), Ok(CacheType::LinkedListLru));
    assert_eq!(CacheType::from_str("mfu"), Ok(CacheType::Mfu));
    assert_eq!(CacheType::from_str("noalg"), Ok(CacheType::NoAlg));
}

#[test]
fn cache_type_from_camel_and_upper_case_names() {
    assert_eq!(CacheType::from_str("OnDemandLru"), Ok(CacheType::OnDemandLru));
    assert_eq!(CacheType::from_str("ONDEMANDLRU"), Ok(CacheType::OnDemandLru));
    assert_eq!(CacheType::from_str("TimestampLru"), Ok(CacheType::TimestampLru));
    assert_eq!(CacheType::from_str("TIMESTAMPLRU"), Ok(CacheType::TimestampLru));
    assert_eq!(CacheType::from_str("LinkedListLru"), Ok(CacheType::LinkedListLru));
    assert_eq!(CacheType::from_str("LINKEDLISTLRU"), Ok(CacheType::LinkedListLru));
    assert_eq!(CacheType::from_str("Mfu"), Ok(CacheType::Mfu));
    assert_eq!(CacheType::from_str("MFU"), Ok(CacheType::Mfu));
    assert_eq!(CacheType::from_str("NoAlg"), Ok(CacheType::NoAlg));
    assert_eq!(CacheType::from_str("NOALG"), Ok(CacheType::NoAlg));
}

#[test]
fn cache_type_ignores_case_letter_by_letter() {
    assert_eq!(CacheType::from_name("mFu"), Ok(CacheType::Mfu));
    assert_eq!(CacheType::from_name("nOaLg"), Ok(CacheType::NoAlg));
    assert_eq!("oNdEmAnDlRu".parse::<CacheType>(), Ok(CacheType::OnDemandLru));
}

#[test]
fn cache_type_unknown_names() {
    assert_eq!(CacheType::from_str(""), Err(ZccError::UnknownCacheType));
    assert_eq!(CacheType::from_str("lru"), Err(ZccError::UnknownCacheType));
    assert_eq!(CacheType::from_str("mfu "), Err(ZccError::UnknownCacheType));
    assert_eq!(CacheType::from_str("mf"), Err(ZccError::UnknownCacheType));
    assert_eq!(CacheType::from_str("mfv"), Err(ZccError::UnknownCacheType));
    assert_eq!(CacheType::from_str("no-alg"), Err(ZccError::UnknownCacheType));
    // A letter is matched with its own upper-case form only.
    assert_eq!(CacheType::from_str("MfU\u{0}"), Err(ZccError::UnknownCacheType));
    assert_eq!(CacheType::from_str("-&5"), Err(ZccError::UnknownCacheType));
    assert_eq!(CacheType::from_str("m\u{e9}u"), Err(ZccError::UnknownCacheType));
}

#[test]
fn error_descriptions() {
    assert_eq!(ZccError::InvalidConfig.describe(), "invalid cache configuration");
    assert_eq!(
        ZccError::InvalidSlab.describe(),
        "memory pool is not a whole number of segments"
    );
    assert_eq!(ZccError::SegmentNotFound.describe(), "segment not found");
    assert_eq!(ZccError::PinFailed.describe(), "pinning the segment failed");
    assert_eq!(ZccError::UnpinFailed.describe(), "unpinning the segment failed");
    assert_eq!(ZccError::UnknownCacheType.describe(), "cache type unknown");
}
