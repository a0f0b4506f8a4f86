//! The names of the replacement policies.
use vstd::prelude::*;
use vstd::string::StrSliceExecFns;
use crate::data_structures::error::ZccError;

verus! {

/// Whether `given` is `letter`, or the upper-case form of the ASCII letter
/// `letter`.
pub open spec fn same_letter(given: char, letter: char) -> bool {
    given == letter || ('A' <= given && given <= 'Z' && given as u32 + 32 == letter as u32)
}

/// Whether `given` spells `name` when the case of ASCII letters is ignored.
/// `name` is meant to be in lower case.
pub open spec fn spells(given: Seq<char>, name: Seq<char>) -> bool {
    &&& given.len() == name.len()
    &&& forall|i: int| 0 <= i < given.len() ==> same_letter(#[trigger] given[i], name[i])
}

/// Whether `given` spells `name` when the case of ASCII letters is ignored.
pub fn spells_name(given: &str, name: &str) -> (same: bool)
    ensures
        same == spells(given@, name@),
{
    let n = given.unicode_len();
    if n != name.unicode_len() {
        return false;
    }
    let mut i: usize = 0;
    while i < n
        invariant
            i <= n,
            n == given@.len(),
            n == name@.len(),
            forall|j: int| 0 <= j < i ==> same_letter(#[trigger] given@[j], name@[j]),
        decreases n - i,
    {
        let a = given.get_char(i);
        let c = name.get_char(i);
        let same = a == c || ('A' <= a && a <= 'Z' && a as u32 + 32 == c as u32);
        if !same {
            assert(!same_letter(given@[i as int], name@[i as int]));
            return false;
        }
        i += 1;
    }
    true
}

/// The replacement policies a cache can be built with.
#[derive(Debug, PartialEq, Eq, Clone, Copy, Structural)]
pub enum CacheType {
    OnDemandLru,
    TimestampLru,
    LinkedListLru,
    Mfu,
    NoAlg,
}

impl CacheType {
    /// The policy's name in lower case.
    pub open spec fn name(self) -> Seq<char> {
        match self {
            CacheType::OnDemandLru => "ondemandlru"@,
            CacheType::TimestampLru => "timestamplru"@,
            CacheType::LinkedListLru => "linkedlistlru"@,
            CacheType::Mfu => "mfu"@,
            CacheType::NoAlg => "noalg"@,
        }
    }

    /// The policy whose name `given` spells, if it spells one.
    pub open spec fn spelled_by(given: Seq<char>) -> Option<CacheType> {
        if spells(given, CacheType::OnDemandLru.name()) {
            Some(CacheType::OnDemandLru)
        } else if spells(given, CacheType::TimestampLru.name()) {
            Some(CacheType::TimestampLru)
        } else if spells(given, CacheType::LinkedListLru.name()) {
            Some(CacheType::LinkedListLru)
        } else if spells(given, CacheType::Mfu.name()) {
            Some(CacheType::Mfu)
        } else if spells(given, CacheType::NoAlg.name()) {
            Some(CacheType::NoAlg)
        } else {
            None
        }
    }

    /// The five names have five different lengths, so a string spells at most
    /// one of them.
    pub proof fn lemma_names_differ(a: CacheType, b: CacheType)
        requires
            a != b,
        ensures
            a.name().len() != b.name().len(),
    {
        reveal_strlit("ondemandlru");
        reveal_strlit("timestamplru");
        reveal_strlit("linkedlistlru");
        reveal_strlit("mfu");
        reveal_strlit("noalg");
    }

    /// The policy that `s` names, whatever the case of its letters.
    ///
    /// Fails with `UnknownCacheType` exactly when `s` spells none of the five
    /// names.
    pub fn from_name(s: &str) -> (parsed: Result<CacheType, ZccError>)
        ensures
            parsed == (match CacheType::spelled_by(s@) {
                Some(t) => Ok::<CacheType, ZccError>(t),
                None => Err::<CacheType, ZccError>(ZccError::UnknownCacheType),
            }),
            forall|t: CacheType|
                spells(s@, #[trigger] t.name()) ==> parsed == Ok::<CacheType, ZccError>(t),
    {
        let parsed = if spells_name(s, "ondemandlru") {
            Ok(CacheType::OnDemandLru)
        } else if spells_name(s, "timestamplru") {
            Ok(CacheType::TimestampLru)
        } else if spells_name(s, "linkedlistlru") {
            Ok(CacheType::LinkedListLru)
        } else if spells_name(s, "mfu") {
            Ok(CacheType::Mfu)
        } else if spells_name(s, "noalg") {
            Ok(CacheType::NoAlg)
        } else {
            Err(ZccError::UnknownCacheType)
        };
        proof {
            assert forall|t: CacheType| spells(s@, #[trigger] t.name()) implies parsed == Ok::<
                CacheType,
                ZccError,
            >(t) by {
                match parsed {
                    Ok(found) => {
                        if found != t {
                            Self::lemma_names_differ(found, t);
                        }
                    },
                    Err(_) => {
                        match t {
                            CacheType::OnDemandLru => {},
                            CacheType::TimestampLru => {},
                            CacheType::LinkedListLru => {},
                            CacheType::Mfu => {},
                            CacheType::NoAlg => {},
                        }
                    },
                }
            }
        }
        parsed
    }
}

impl std::str::FromStr for CacheType {
    type Err = ZccError;

    /// The policy that `s` names, whatever the case of its letters.
    fn from_str(s: &str) -> (parsed: Result<CacheType, ZccError>)
        ensures
            parsed == (match CacheType::spelled_by(s@) {
                Some(t) => Ok::<CacheType, ZccError>(t),
                None => Err::<CacheType, ZccError>(ZccError::UnknownCacheType),
            }),
    {
        CacheType::from_name(s)
    }
}

} // verus!
