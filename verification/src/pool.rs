use vstd::prelude::*;

verus! {

/// Whether the needle occurs in the haystack starting at position `i`.
pub open spec fn contains_at(h: Seq<char>, n: Seq<char>, i: int) -> bool {
    0 <= i && i + n.len() <= h.len() && h.subrange(i, i + n.len()) == n
}

/// Whether the needle occurs anywhere in the haystack.
pub open spec fn text_contains(h: Seq<char>, n: Seq<char>) -> bool {
    exists|i: int| contains_at(h, n, i)
}

/// Whether the needle occurs at one given position.
fn match_at(h: &str, n: &str, i: usize, hl: usize, nl: usize) -> (r: bool)
    requires
        hl == h@.len(),
        nl == n@.len(),
        i + nl <= hl,
    ensures
        r == contains_at(h@, n@, i as int),
{
    let mut j: usize = 0;
    while j < nl
        invariant
            j <= nl,
            hl == h@.len(),
            nl == n@.len(),
            i + nl <= hl,
            forall|k: int| 0 <= k < j ==> h@[i + k] == n@[k],
        decreases nl - j,
    {
        if h.get_char(i + j) != n.get_char(j) {
            proof {
                assert(h@.subrange(i as int, i + n@.len())[j as int] != n@[j as int]);
            }
            return false;
        }
        j = j + 1;
    }
    proof {
        assert(h@.subrange(i as int, i + n@.len()) =~= n@);
    }
    true
}

/// Executable substring test.
pub fn str_contains(h: &str, n: &str) -> (r: bool)
    ensures
        r == text_contains(h@, n@),
{
    let hl = h.unicode_len();
    let nl = n.unicode_len();
    if nl > hl {
        proof {
            assert(forall|i: int| !contains_at(h@, n@, i));
        }
        return false;
    }
    if nl == 0 {
        proof {
            assert(h@.subrange(0, 0) =~= n@);
            assert(contains_at(h@, n@, 0));
        }
        return true;
    }
    let bound = hl - nl + 1;
    let mut i: usize = 0;
    while i < bound
        invariant
            0 < nl <= hl,
            hl == h@.len(),
            nl == n@.len(),
            bound == hl - nl + 1,
            i <= bound,
            forall|k: int| 0 <= k < i ==> !contains_at(h@, n@, k),
        decreases bound - i,
    {
        if match_at(h, n, i, hl, nl) {
            return true;
        }
        i = i + 1;
    }
    proof {
        assert forall|k: int| !contains_at(h@, n@, k) by {
            if 0 <= k < i {
            } else {
                assert(k < 0 || k + n@.len() > h@.len());
            }
        }
    }
    false
}

/// The concrete data-source adapter a configured entry maps to.
#[derive(PartialEq, Eq, Structural, Clone, Copy, Debug)]
pub enum Provider {
    Entsoe,
    Apg,
}

/// Why a configured entry maps to no adapter: the entry carries no source
/// address, or the address names no known provider.
#[derive(PartialEq, Eq, Structural, Clone, Copy, Debug)]
pub enum ProviderError {
    MissingUrl,
    UnknownUrl,
}

/// Picks the adapter for a configured entry from its source address hint,
/// done once at pool startup: an address naming the first provider wins,
/// then one naming the second; anything else is a configuration error that
/// keeps this pool from starting.
pub fn select_provider(url: Option<&str>) -> (r: Result<Provider, ProviderError>)
    ensures
        r == (match url {
            None => Err::<Provider, ProviderError>(ProviderError::MissingUrl),
            Some(u) => if text_contains(u@, "entsoe"@) {
                Ok::<Provider, ProviderError>(Provider::Entsoe)
            } else if text_contains(u@, "apg"@) {
                Ok::<Provider, ProviderError>(Provider::Apg)
            } else {
                Err::<Provider, ProviderError>(ProviderError::UnknownUrl)
            },
        }),
{
    match url {
        None => Err(ProviderError::MissingUrl),
        Some(u) => {
            if str_contains(u, "entsoe") {
                Ok(Provider::Entsoe)
            } else if str_contains(u, "apg") {
                Ok(Provider::Apg)
            } else {
                Err(ProviderError::UnknownUrl)
            }
        },
    }
}

/// The capacity of the tick queue feeding a pool's workers: twice the worker
/// count, at least ten, so slow workers throttle the generator while a small
/// pool still buffers a few ticks.
pub fn tick_queue_capacity(workers: usize) -> (c: usize)
    requires
        workers <= usize::MAX / 2,
    ensures
        c == (if 2 * workers > 10 {
            2 * (workers as int)
        } else {
            10int
        }),
{
    let doubled = 2 * workers;
    if doubled > 10 {
        doubled
    } else {
        10
    }
}

} // verus!
