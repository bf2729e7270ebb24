use vstd::endian::{endianness, Endian};
use vstd::prelude::*;

verus! {

/// The unsigned number that the four bytes at `at` encode, least significant byte first.
pub open spec fn le_u32(bytes: Seq<u8>, at: int) -> u32 {
    (bytes[at] as int + bytes[at + 1] as int * 0x100 + bytes[at + 2] as int * 0x1_0000
        + bytes[at + 3] as int * 0x100_0000) as u32
}

/// The unsigned number that the four bytes at `at` encode, most significant byte first.
pub open spec fn be_u32(bytes: Seq<u8>, at: int) -> u32 {
    (bytes[at + 3] as int + bytes[at + 2] as int * 0x100 + bytes[at + 1] as int * 0x1_0000
        + bytes[at] as int * 0x100_0000) as u32
}

/// The unsigned number that the four bytes at `at` encode in the byte order of the
/// machine that runs the code.
pub open spec fn host_u32(bytes: Seq<u8>, at: int) -> u32 {
    match endianness() {
        Endian::Little => le_u32(bytes, at),
        Endian::Big => be_u32(bytes, at),
    }
}

/// Reads the four-byte little-endian unsigned number at `at`.
pub fn u32_at(bytes: &[u8], at: usize) -> (r: u32)
    requires
        at + 4 <= bytes@.len(),
    ensures
        r == le_u32(bytes@, at as int),
{
    bytes[at] as u32 + bytes[at + 1] as u32 * 0x100 + bytes[at + 2] as u32 * 0x1_0000 + bytes[at + 3] as u32
        * 0x100_0000
}

/// No byte of `s` is NUL.
pub open spec fn nul_free(s: Seq<u8>) -> bool {
    forall|i: int| 0 <= i < s.len() ==> s[i] != 0
}

/// `j` is where the string starting at `idx` ends: `pool[j]` is NUL and no NUL lies between.
pub open spec fn ends_at(pool: Seq<u8>, idx: int, j: int) -> bool {
    &&& 0 <= idx <= j < pool.len()
    &&& pool[j] == 0
    &&& nul_free(pool.subrange(idx, j))
}

/// The NUL-terminated string that starts at `idx` in `pool`, without its NUL;
/// `None` where no NUL follows `idx` in the pool.
pub open spec fn cstring_at(pool: Seq<u8>, idx: int) -> Option<Seq<u8>> {
    if exists|j: int| ends_at(pool, idx, j) {
        let j = choose|j: int| ends_at(pool, idx, j);
        Some(pool.subrange(idx, j))
    } else {
        None
    }
}

/// A vector of bytes read as its sequence.
pub open spec fn bytes_of(o: Option<Vec<u8>>) -> Option<Seq<u8>> {
    match o {
        Some(v) => Some(v@),
        None => None,
    }
}

/// The end of a string is unique: it is the first NUL at or after the start.
pub proof fn lemma_end_unique(pool: Seq<u8>, idx: int, j: int, k: int)
    requires
        ends_at(pool, idx, j),
        ends_at(pool, idx, k),
    ensures
        j == k,
{
    if j < k {
        assert(pool.subrange(idx, k)[j - idx] == pool[j]);
    } else if k < j {
        assert(pool.subrange(idx, j)[k - idx] == pool[k]);
    }
}

/// A string read from the pool holds no NUL, is the pool's bytes from `idx` on,
/// and is followed by a NUL.
pub proof fn lemma_cstring_at(pool: Seq<u8>, idx: int)
    requires
        cstring_at(pool, idx) is Some,
    ensures
        ({
            let s = cstring_at(pool, idx)->0;
            &&& nul_free(s)
            &&& 0 <= idx
            &&& idx + s.len() < pool.len()
            &&& s == pool.subrange(idx, idx + s.len())
            &&& pool[idx + s.len()] == 0
        }),
{
    let j = choose|j: int| ends_at(pool, idx, j);
    assert(ends_at(pool, idx, j));
}

/// A NUL at or after `idx` ends a string there.
proof fn lemma_first_nul(pool: Seq<u8>, idx: int, j0: int)
    requires
        0 <= idx <= j0 < pool.len(),
        pool[j0] == 0,
    ensures
        exists|j: int| ends_at(pool, idx, j),
    decreases j0 - idx,
{
    if nul_free(pool.subrange(idx, j0)) {
        assert(ends_at(pool, idx, j0));
    } else {
        let k = choose|k: int| 0 <= k < j0 - idx && pool.subrange(idx, j0)[k] == 0;
        lemma_first_nul(pool, idx, idx + k);
    }
}

/// No string can be read at `idx` exactly when `idx` is negative or no NUL lies
/// at or after it in the pool.
pub proof fn lemma_cstring_missing(pool: Seq<u8>, idx: int)
    ensures
        cstring_at(pool, idx) is None <==> (idx < 0 || forall|j: int| idx <= j < pool.len() ==> pool[j] != 0),
{
    if idx >= 0 && exists|j: int| idx <= j < pool.len() && pool[j] == 0 {
        let j0 = choose|j: int| idx <= j < pool.len() && pool[j] == 0;
        lemma_first_nul(pool, idx, j0);
    }
    if cstring_at(pool, idx) is Some {
        let j = choose|j: int| ends_at(pool, idx, j);
        assert(ends_at(pool, idx, j));
    }
}

/// Reads the NUL-terminated string that starts at `idx` in `pool`.
pub fn decode_cstring(pool: &[u8], idx: usize) -> (r: Option<Vec<u8>>)
    ensures
        bytes_of(r) == cstring_at(pool@, idx as int),
{
    let mut xs: Vec<u8> = Vec::new();
    let mut i: usize = idx;
    while i < pool.len() && pool[i] != 0
        invariant
            idx <= i,
            i <= pool.len() || i == idx,
            i <= pool.len() ==> xs@ == pool@.subrange(idx as int, i as int),
            xs@.len() == i - idx,
            nul_free(xs@),
        decreases pool.len() - i,
    {
        xs.push(pool[i]);
        i += 1;
    }
    if i >= pool.len() {
        assert forall|j: int| !ends_at(pool@, idx as int, j) by {
            if ends_at(pool@, idx as int, j) {
                assert(xs@[j - idx] == pool@[j]);
            }
        }
        None
    } else {
        assert(ends_at(pool@, idx as int, i as int));
        let ghost j = choose|j: int| ends_at(pool@, idx as int, j);
        proof {
            lemma_end_unique(pool@, idx as int, i as int, j);
        }
        Some(xs)
    }
}


/// The strings of `pool` from offset `idx` on, each with the offset where it starts;
/// `None` where the last one has no NUL after it.
pub open spec fn cstring_pool_from(pool: Seq<u8>, idx: int) -> Option<Seq<(usize, Seq<u8>)>>
    decreases pool.len() - idx,
{
    if idx < 0 || idx >= pool.len() {
        Some(Seq::empty())
    } else {
        match cstring_at(pool, idx) {
            None => None,
            Some(s) => if idx + s.len() + 1 <= pool.len() {
                match cstring_pool_from(pool, idx + s.len() + 1) {
                    Some(rest) => Some(seq![(idx as usize, s)] + rest),
                    None => None,
                }
            } else {
                None
            },
        }
    }
}

/// The entries of a decoded pool read as values.
pub open spec fn pool_entries(v: Seq<(usize, Vec<u8>)>) -> Seq<(usize, Seq<u8>)> {
    v.map_values(|e: (usize, Vec<u8>)| (e.0, e.1@))
}

/// A decoded pool read as values.
pub open spec fn pool_of(r: Option<Vec<(usize, Vec<u8>)>>) -> Option<Seq<(usize, Seq<u8>)>> {
    match r {
        Some(v) => Some(pool_entries(v@)),
        None => None,
    }
}

/// `prefix` put before the entries of `rest`, if there are any.
pub open spec fn prepend_entries(prefix: Seq<(usize, Seq<u8>)>, rest: Option<Seq<(usize, Seq<u8>)>>) -> Option<Seq<(usize, Seq<u8>)>> {
    match rest {
        Some(r) => Some(prefix + r),
        None => None,
    }
}

/// The pool that a list of strings makes, each followed by its NUL.
pub open spec fn joined(es: Seq<(usize, Seq<u8>)>) -> Seq<u8>
    decreases es.len(),
{
    if es.len() == 0 {
        Seq::empty()
    } else {
        es[0].1 + seq![0u8] + joined(es.drop_first())
    }
}

/// Splitting a pool into its strings loses nothing: the strings, each followed by
/// its NUL, make up the pool again from `idx` on; each entry is the string that
/// starts at its offset, the first starts at `idx`, and each next one right after
/// the NUL of the one before.
pub proof fn lemma_pool_split_is_lossless(pool: Seq<u8>, idx: int)
    requires
        0 <= idx <= pool.len() <= usize::MAX,
        cstring_pool_from(pool, idx) is Some,
    ensures
        ({
            let es = cstring_pool_from(pool, idx)->0;
            &&& joined(es) == pool.subrange(idx, pool.len() as int)
            &&& es.len() > 0 ==> es[0].0 == idx
            &&& forall|i: int| 0 <= i < es.len() ==> cstring_at(pool, es[i].0 as int) == Some(#[trigger] es[i].1)
            &&& forall|i: int| 0 <= i < es.len() - 1 ==> #[trigger] es[i + 1].0 == es[i].0 + es[i].1.len() + 1
        }),
    decreases pool.len() - idx,
{
    let es = cstring_pool_from(pool, idx)->0;
    if idx < pool.len() {
        let s = cstring_at(pool, idx)->0;
        lemma_cstring_at(pool, idx);
        let next = idx + s.len() + 1;
        lemma_pool_split_is_lossless(pool, next);
        let rest = cstring_pool_from(pool, next)->0;
        assert(es == seq![(idx as usize, s)] + rest);
        assert(es.drop_first() == rest);
        assert(pool.subrange(idx, pool.len() as int) == s + seq![0u8] + pool.subrange(next, pool.len() as int));
        assert forall|i: int| 0 <= i < es.len() implies cstring_at(pool, es[i].0 as int) == Some(#[trigger] es[i].1) by {
            if i > 0 {
                assert(es[i] == rest[i - 1]);
            }
        }
        assert forall|i: int| 0 <= i < es.len() - 1 implies #[trigger] es[i + 1].0 == es[i].0 + es[i].1.len() + 1 by {
            if i > 0 {
                assert(es[i] == rest[i - 1]);
                assert(es[i + 1] == rest[i]);
            }
        }
    } else {
        assert(pool.subrange(idx, pool.len() as int) =~= Seq::<u8>::empty());
    }
}

/// Splits a string pool into its NUL-terminated strings, each with the offset
/// where it starts; `None` where the last one has no NUL after it.
pub fn decode_cstring_pool(pool: &[u8]) -> (r: Option<Vec<(usize, Vec<u8>)>>)
    ensures
        pool_of(r) == cstring_pool_from(pool@, 0),
{
    let mut idx: usize = 0;
    let mut out: Vec<(usize, Vec<u8>)> = Vec::new();
    while idx < pool.len()
        invariant
            idx <= pool.len(),
            cstring_pool_from(pool@, 0) == prepend_entries(pool_entries(out@), cstring_pool_from(pool@, idx as int)),
        decreases pool.len() - idx,
    {
        let cstr = match decode_cstring(pool, idx) {
            Some(c) => c,
            None => return None,
        };
        proof {
            lemma_cstring_at(pool@, idx as int);
        }
        let len_d = cstr.len() + 1;
        let ghost old_out = out@;
        let ghost s = cstr@;
        out.push((idx, cstr));
        assert(pool_entries(out@) == pool_entries(old_out) + seq![(idx, s)]);
        let ghost next = idx + len_d;
        assert(cstring_pool_from(pool@, idx as int) == prepend_entries(seq![(idx, s)], cstring_pool_from(pool@, next)));
        assert(cstring_pool_from(pool@, 0) == prepend_entries(pool_entries(out@), cstring_pool_from(pool@, next))) by {
            match cstring_pool_from(pool@, next) {
                Some(r) => {
                    assert(pool_entries(old_out) + (seq![(idx, s)] + r) == pool_entries(out@) + r);
                },
                None => {},
            }
        }
        idx += len_d;
    }
    assert(pool_entries(out@) + Seq::<(usize, Seq<u8>)>::empty() == pool_entries(out@));
    Some(out)
}
} // verus!
