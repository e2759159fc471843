use vstd::prelude::*;

use crate::fmtnum::{dec_int, i32_dec, two_digit_dec, two_digits};

verus! {

/// The payload kind of a partition. Values and bids readings for the same
/// source and date live in separate files because their row shapes differ,
/// so the kind is part of the partition key.
#[derive(PartialEq, Eq, Structural, Clone, Copy, Debug)]
pub enum PayloadKind {
    Values,
    Bids,
}

/// The file name of a partition of the given kind.
pub open spec fn kind_file_name(kind: PayloadKind) -> Seq<char> {
    match kind {
        PayloadKind::Values => "data.parquet"@,
        PayloadKind::Bids => "bids.parquet"@,
    }
}

/// The on-disk path of one partition file:
/// `<base>/<folder>/year=<Y>/month=<MM>/day=<DD>/<kind file>`, the year
/// unpadded, month and day zero-padded to two digits, and the file name
/// picked by the payload kind.
pub open spec fn partition_path(
    base: Seq<char>,
    folder: Seq<char>,
    y: int,
    m: int,
    d: int,
    kind: PayloadKind,
) -> Seq<char> {
    base + "/"@ + folder + "/year="@ + dec_int(y) + "/month="@ + two_digits(m) + "/day="@
        + two_digits(d) + "/"@ + kind_file_name(kind)
}

/// The two kinds of one source and date never share a file: their partition
/// paths differ.
pub proof fn lemma_kind_paths_distinct(base: Seq<char>, folder: Seq<char>, y: int, m: int, d: int)
    ensures
        partition_path(base, folder, y, m, d, PayloadKind::Values) != partition_path(
            base,
            folder,
            y,
            m,
            d,
            PayloadKind::Bids,
        ),
{
    reveal_strlit("data.parquet");
    reveal_strlit("bids.parquet");
    let c = base + "/"@ + folder + "/year="@ + dec_int(y) + "/month="@ + two_digits(m) + "/day="@
        + two_digits(d) + "/"@;
    let pv = partition_path(base, folder, y, m, d, PayloadKind::Values);
    let pb = partition_path(base, folder, y, m, d, PayloadKind::Bids);
    assert(pv[c.len() as int] == 'd');
    assert(pb[c.len() as int] == 'b');
}

/// The data folder of a source: its configured sub-folder when present, its
/// name otherwise.
pub open spec fn folder_of(name: Seq<char>, sub: Option<Seq<char>>) -> Seq<char> {
    match sub {
        Some(s) => s,
        None => name,
    }
}

/// Picks the data folder of a source.
pub fn folder_name(name: &str, subfolder: Option<&str>) -> (r: String)
    ensures
        r@ == (match subfolder {
            Some(s) => s@,
            None => name@,
        }),
{
    match subfolder {
        Some(s) => s.to_owned(),
        None => name.to_owned(),
    }
}

/// Renders the partition file path for a folder, a calendar date and a
/// payload kind.
pub fn partition_file_path(base: &str, folder: &str, y: i32, m: u32, d: u32, kind: PayloadKind) -> (
    r: String)
    requires
        y > i32::MIN,
        m < 100,
        d < 100,
    ensures
        r@ == partition_path(base@, folder@, y as int, m as int, d as int, kind),
{
    let mut p = base.to_owned();
    p.append("/");
    p.append(folder);
    p.append("/year=");
    let ys = i32_dec(y);
    p.append(ys.as_str());
    p.append("/month=");
    let ms = two_digit_dec(m);
    p.append(ms.as_str());
    p.append("/day=");
    let ds = two_digit_dec(d);
    p.append(ds.as_str());
    p.append("/");
    match kind {
        PayloadKind::Values => {
            p.append("data.parquet");
        },
        PayloadKind::Bids => {
            p.append("bids.parquet");
        },
    }
    proof {
        assert(p@ =~= partition_path(base@, folder@, y as int, m as int, d as int, kind));
    }
    p
}

/// Whether one character sequence begins with another.
pub open spec fn starts_with(h: Seq<char>, p: Seq<char>) -> bool {
    h.len() >= p.len() && h.take(p.len() as int) == p
}

/// Executable prefix test on strings.
pub fn str_starts_with(h: &str, p: &str) -> (r: bool)
    ensures
        r == starts_with(h@, p@),
{
    let hl = h.unicode_len();
    let pl = p.unicode_len();
    if hl < pl {
        return false;
    }
    let mut i: usize = 0;
    while i < pl
        invariant
            i <= pl,
            hl == h@.len(),
            pl == p@.len(),
            hl >= pl,
            forall|k: int| 0 <= k < i ==> h@[k] == p@[k],
        decreases pl - i,
    {
        if h.get_char(i) != p.get_char(i) {
            proof {
                assert(h@.take(pl as int)[i as int] != p@[i as int]);
            }
            return false;
        }
        i = i + 1;
    }
    proof {
        assert(h@.take(pl as int) =~= p@);
    }
    true
}

/// The remote object key for a local partition file: the path relative to
/// the storage root, re-prefixed with the configured key prefix. A path
/// outside the storage root has no key and cannot be uploaded.
pub fn object_key_for(path: &str, prefix: &str) -> (r: Option<String>)
    ensures
        match r {
            Some(k) => starts_with(path@, "data/"@) && k@ == prefix@ + path@.skip(
                "data/"@.len() as int,
            ),
            None => !starts_with(path@, "data/"@),
        },
{
    if !str_starts_with(path, "data/") {
        return None;
    }
    proof {
        reveal_strlit("data/");
    }
    let root_len = "data/".unicode_len();
    let path_len = path.unicode_len();
    let rest = path.substring_char(root_len, path_len);
    let mut key = prefix.to_owned();
    key.append(rest);
    proof {
        assert(rest@ =~= path@.skip("data/"@.len() as int));
    }
    Some(key)
}

/// The remote object key under the default key prefix, which is the storage
/// root's own name: the key then equals the path itself.
pub fn object_key(path: &str) -> (r: Option<String>)
    ensures
        match r {
            Some(k) => starts_with(path@, "data/"@) && k@ == path@,
            None => !starts_with(path@, "data/"@),
        },
{
    let r = object_key_for(path, "data/");
    proof {
        reveal_strlit("data/");
        if starts_with(path@, "data/"@) {
            assert(path@.take("data/"@.len() as int) + path@.skip("data/"@.len() as int) =~= path@);
        }
    }
    r
}

} // verus!
