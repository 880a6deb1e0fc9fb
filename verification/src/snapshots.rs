//! Snapshots: ordinal-named files carrying a binary serialization of the
//! whole dataset and TTL state; the highest ordinal is the most recent.

use vstd::prelude::*;

verus! {

use vstd::string::StrSliceExecFns;
use vstd::string::StringExecFns;
use crate::error::Error;
use crate::ttl::Lifetimes;
use crate::engine::Datasets;
use crate::score::Score;
use crate::sorted_sets::{OrderedScores, AddOptions};
use crate::text::{dec_str_of, digits_val, is_digit, is_digit_seq, opt_nat_of, parse_u64, u64_to_string, lemma_dec_str_digits, lemma_dec_str_val};
use crate::tx_log::Revision;
use crate::wire;

/// The name tag of a snapshot file, before the ordinal.
pub open spec fn snapshot_prefix() -> Seq<char> {
    seq!['s', 'n', 'a', 'p', 's', 'h', 'o', 't', '-']
}

/// The name tag of a snapshot file, after the ordinal.
pub open spec fn snapshot_suffix() -> Seq<char> {
    seq!['.', 'd', 'a', 't', 'a']
}

/// The ordinal a snapshot file name carries, if it is one.
pub open spec fn ordinal_of(s: Seq<char>) -> Option<int> {
    if s.len() > 14 && s.take(9) == snapshot_prefix() && s.skip(s.len() - 5)
        == snapshot_suffix() {
        let mid = s.subrange(9, s.len() - 5);
        if is_digit_seq(mid) && digits_val(mid) <= u64::MAX {
            Some(digits_val(mid))
        } else {
            None
        }
    } else {
        None
    }
}

/// A snapshot file, identified by its name and ordinal.
#[derive(Clone, Debug)]
pub struct SnapshotFile {
    pub name: String,
    pub index: u64,
}

/// The canonical name of the snapshot with an ordinal.
pub fn snapshot_file_name(index: u64) -> (r: String)
    ensures
        ordinal_of(r@) == Some(index as int),
{
    proof {
        reveal_strlit("snapshot-");
        reveal_strlit(".data");
        assert("snapshot-"@ =~= snapshot_prefix());
        assert(".data"@ =~= snapshot_suffix());
    }
    let mut r = String::from_str("snapshot-");
    r.append(u64_to_string(index).as_str());
    r.append(".data");
    proof {
        lemma_dec_str_digits(index as nat);
        lemma_dec_str_val(index as nat);
        let s = r@;
        assert(s.take(9) =~= snapshot_prefix());
        assert(s.skip(s.len() - 5) =~= snapshot_suffix());
        assert(s.subrange(9, s.len() - 5) =~= dec_str_of(index as nat));
    }
    r
}

/// Reads a file name's snapshot ordinal, if the name is a snapshot's.
pub fn parse_snapshot_ordinal(name: &str) -> (r: Option<u64>)
    ensures
        match r {
            Some(v) => ordinal_of(name@) == Some(v as int),
            None => ordinal_of(name@) is None,
        },
{
    proof {
        reveal_strlit("snapshot-");
        reveal_strlit(".data");
        assert("snapshot-"@ =~= snapshot_prefix());
        assert(".data"@ =~= snapshot_suffix());
    }
    let len = name.unicode_len();
    if len <= 14 {
        return None;
    }
    let head = name.substring_char(0, 9);
    if !crate::text::str_eq(head, "snapshot-") {
        proof {
            assert(head@ =~= name@.take(9));
        }
        return None;
    }
    let tail = name.substring_char(len - 5, len);
    if !crate::text::str_eq(tail, ".data") {
        proof {
            assert(tail@ =~= name@.skip(name@.len() - 5));
        }
        return None;
    }
    proof {
        assert(head@ =~= name@.take(9));
        assert(tail@ =~= name@.skip(name@.len() - 5));
    }
    let mid = name.substring_char(9, len - 5);
    proof {
        assert(mid@ =~= name@.subrange(9, name@.len() - 5));
    }
    // every character of the ordinal span must be a digit
    let mut i: usize = 0;
    let midlen = mid.unicode_len();
    while i < midlen
        invariant
            0 <= i <= midlen,
            midlen == mid@.len(),
            name@.len() > 14,
            name@.take(9) == snapshot_prefix(),
            name@.skip(name@.len() - 5) == snapshot_suffix(),
            mid@ == name@.subrange(9, name@.len() - 5),
            forall|j: int| 0 <= j < i ==> is_digit(#[trigger] mid@[j]),
        decreases midlen - i,
    {
        let cu = mid.get_char(i) as u32;
        if cu < 48 || cu > 57 {
            proof {
                reveal_strlit("snapshot-");
                reveal_strlit(".data");
                assert("snapshot-"@ =~= snapshot_prefix());
                assert(".data"@ =~= snapshot_suffix());
                assert(!is_digit(mid@[i as int]));
                assert(ordinal_of(name@) is None);
            }
            return None;
        }
        i += 1;
    }
    proof {
        reveal_strlit("snapshot-");
        reveal_strlit(".data");
        assert("snapshot-"@ =~= snapshot_prefix());
        assert(".data"@ =~= snapshot_suffix());
        assert(head@ =~= name@.take(9));
        assert(tail@ =~= name@.skip(name@.len() - 5));
        assert(mid@ =~= name@.subrange(9, name@.len() - 5));
    }
    match parse_u64(mid) {
        Ok(v) => {
            proof {
                assert(opt_nat_of(mid@) == Some(v as int));
                if mid@.len() >= 2 && mid@[0] == '+' {
                    assert(is_digit(mid@[0]));
                    assert(false);
                }
            }
            Some(v)
        },
        Err(_) => {
            proof {
                if mid@.len() >= 2 && mid@[0] == '+' {
                    assert(is_digit(mid@[0]));
                    assert(false);
                }
            }
            None
        },
    }
}

/// The snapshot with the highest ordinal among the given file names.
pub fn most_recent(names: &Vec<String>) -> (r: Option<SnapshotFile>)
    ensures
        match r {
            Some(f) => {
                &&& ordinal_of(f.name@) == Some(f.index as int)
                &&& exists|j: int| 0 <= j < names@.len() && (#[trigger] names@[j]@) == f.name@
                &&& forall|j: int|
                    0 <= j < names@.len() ==> (match ordinal_of(#[trigger] names@[j]@) {
                        Some(v) => v <= f.index as int,
                        None => true,
                    })
            },
            None => forall|j: int|
                0 <= j < names@.len() ==> ordinal_of(#[trigger] names@[j]@) is None,
        },
{
    let mut best: Option<SnapshotFile> = None;
    let mut i: usize = 0;
    while i < names.len()
        invariant
            0 <= i <= names@.len(),
            match best {
                Some(f) => {
                    &&& ordinal_of(f.name@) == Some(f.index as int)
                    &&& exists|j: int| 0 <= j < i && (#[trigger] names@[j]@) == f.name@
                    &&& forall|j: int|
                        0 <= j < i ==> (match ordinal_of(#[trigger] names@[j]@) {
                            Some(v) => v <= f.index as int,
                            None => true,
                        })
                },
                None => forall|j: int|
                    0 <= j < i ==> ordinal_of(#[trigger] names@[j]@) is None,
            },
        decreases names@.len() - i,
    {
        match parse_snapshot_ordinal(names[i].as_str()) {
            Some(v) => {
                let better = match &best {
                    Some(f) => v > f.index,
                    None => true,
                };
                if better {
                    best = Some(SnapshotFile { name: names[i].clone(), index: v });
                    proof {
                        assert(names@[i as int]@ == best->Some_0.name@);
                    }
                }
            },
            None => {},
        }
        i += 1;
    }
    best
}

/// The snapshot file the next save should write: one ordinal above every
/// listed snapshot, or zero where none exists yet. Only at the end of the
/// ordinal space, which a machine never reaches, does the ordinal repeat.
pub fn allocate_new(names: &Vec<String>) -> (r: SnapshotFile)
    ensures
        ordinal_of(r.name@) == Some(r.index as int),
        forall|j: int|
            0 <= j < names@.len() ==> (match ordinal_of(#[trigger] names@[j]@) {
                Some(v) => v < r.index as int || r.index == u64::MAX,
                None => true,
            }),
{
    let index = match most_recent(names) {
        Some(f) => if f.index < u64::MAX {
            f.index + 1
        } else {
            f.index
        },
        None => 0,
    };
    let name = snapshot_file_name(index);
    SnapshotFile { name, index }
}

/// Serializes the dataset and TTL state into a self-describing byte form,
/// led by the revision the snapshot establishes on restore.
pub fn snapshot_bytes(state: &Lifetimes) -> (r: Vec<u8>)
    requires
        state.wf(),
    ensures
        r@.len() >= 8,
        r@.subrange(0, 8) == wire::u64_le(state.data.rev() as u64),
{
    let ghost revision_prefix = wire::u64_le(state.data.rev() as u64);
    let mut out: Vec<u8> = Vec::new();
    wire::put_u64(&mut out, state.data.revision().0);
    proof {
        assert(out@.subrange(0, 8) =~= revision_prefix);
    }
    let nstr = state.data.strings.len();
    wire::put_u64(&mut out, nstr as u64);
    let mut i: usize = 0;
    while i < nstr
        invariant
            nstr == state.data.strings.model().len(),
            out@.len() >= 8,
            out@.subrange(0, 8) == revision_prefix,
        decreases nstr - i,
    {
        wire::put_chars(&mut out, state.data.strings.key_at(i).as_str());
        wire::put_chars(&mut out, state.data.strings.value_at(i).as_str());
        i += 1;
    }
    let nlist = state.data.lists.len();
    wire::put_u64(&mut out, nlist as u64);
    let mut i2: usize = 0;
    while i2 < nlist
        invariant
            nlist == state.data.lists.model().len(),
            out@.len() >= 8,
            out@.subrange(0, 8) == revision_prefix,
        decreases nlist - i2,
    {
        wire::put_chars(&mut out, state.data.lists.key_at(i2).as_str());
        let items = state.data.lists.value_at(i2);
        wire::put_u64(&mut out, items.len() as u64);
        let mut a: usize = 0;
        while a < items.len()
            invariant
                out@.len() >= 8,
                out@.subrange(0, 8) == revision_prefix,
            decreases items@.len() - a,
        {
            wire::put_chars(&mut out, items[a].as_str());
            a += 1;
        }
        i2 += 1;
    }
    let nz = state.data.sorted_sets.len();
    wire::put_u64(&mut out, nz as u64);
    let mut i3: usize = 0;
    while i3 < nz
        invariant
            nz == state.data.sorted_sets.model().len(),
            state.wf(),
            out@.len() >= 8,
            out@.subrange(0, 8) == revision_prefix,
        decreases nz - i3,
    {
        wire::put_chars(&mut out, state.data.sorted_sets.key_at(i3).as_str());
        let z = state.data.sorted_sets.value_at(i3);
        proof {
            crate::keyed::lemma_assoc_get_at_unique(
                state.data.sorted_sets.model(),
                state.data.sorted_sets.model()[i3 as int].0,
                i3 as int,
            );
        }
        let entries = z.collect_entries();
        wire::put_u64(&mut out, entries.len() as u64);
        let mut a: usize = 0;
        while a < entries.len()
            invariant
                out@.len() >= 8,
                out@.subrange(0, 8) == revision_prefix,
            decreases entries@.len() - a,
        {
            let units = entries[a].0.units;
            wire::put_u64(&mut out, units as u64);
            wire::put_u64(&mut out, (units >> 64) as u64);
            wire::put_chars(&mut out, entries[a].1.as_str());
            a += 1;
        }
        i3 += 1;
    }
    let mut ttl_keys: Vec<String> = Vec::new();
    let mut ttl_ats: Vec<u64> = Vec::new();
    let mut i4: usize = 0;
    let nt = state.ttls.len();
    while i4 < nt
        invariant
            nt == state.ttls.model().len(),
            ttl_keys@.len() == ttl_ats@.len(),
            out@.len() >= 8,
            out@.subrange(0, 8) == revision_prefix,
        decreases nt - i4,
    {
        ttl_keys.push(state.ttls.key_at(i4).clone());
        ttl_ats.push(*state.ttls.value_at(i4));
        i4 += 1;
    }
    wire::put_u64(&mut out, ttl_keys.len() as u64);
    let mut i5: usize = 0;
    while i5 < ttl_keys.len()
        invariant
            i5 <= ttl_keys@.len(),
            ttl_keys@.len() == ttl_ats@.len(),
            out@.len() >= 8,
            out@.subrange(0, 8) == revision_prefix,
        decreases ttl_keys@.len() - i5,
    {
        wire::put_chars(&mut out, ttl_keys[i5].as_str());
        wire::put_u64(&mut out, ttl_ats[i5]);
        i5 += 1;
    }
    out
}

/// Reads a `u64` at the cursor.
fn take_u64(bytes: &Vec<u8>, pos: usize) -> (r: Result<(u64, usize), Error>)
    ensures
        r matches Ok(p) ==> (pos < p.1 <= bytes@.len() && p.1 == pos + 8 && wire::u64_le(p.0)
            == bytes@.subrange(pos as int, pos + 8)),
{
    proof {
        reveal_strlit("snapshot truncated");
    }
    if pos <= bytes.len() && bytes.len() - pos >= 8 {
        let v = wire::get_u64(bytes, pos);
        Ok((v, pos + 8))
    } else {
        Err(Error::InvalidData(String::from_str("snapshot truncated")))
    }
}

/// Reads a length-prefixed text at the cursor.
fn take_text(bytes: &Vec<u8>, pos: usize) -> (r: Result<(String, usize), Error>)
    ensures
        r matches Ok(p) ==> pos < p.1 <= bytes@.len(),
{
    proof {
        reveal_strlit("snapshot truncated");
    }
    let (len64, p1) = match take_u64(bytes, pos) {
        Ok(v) => v,
        Err(e) => {
            return Err(e);
        },
    };
    if len64 > 0x10000000u64 {
        return Err(Error::InvalidData(String::from_str("snapshot truncated")));
    }
    let n = len64 as usize;
    if n > bytes.len() || p1 > bytes.len() - n {
        return Err(Error::InvalidData(String::from_str("snapshot truncated")));
    }
    match wire::get_text(bytes, p1, p1 + n) {
        Ok(s) => Ok((s, p1 + n)),
        Err(e) => Err(e),
    }
}

/// Rebuilds the state a snapshot serialized. Malformed bytes are rejected;
/// a rebuilt state is always well formed.
pub fn restore_snapshot(bytes: &Vec<u8>) -> (r: Result<Lifetimes, Error>)
    ensures
        r matches Ok(st) ==> st.wf(),
        r matches Ok(st) ==> bytes@.len() >= 8 && wire::u64_le(st.data.rev() as u64)
            == bytes@.subrange(0, 8),
{
    proof {
        reveal_strlit("snapshot out of range");
    }
    let mut st = Lifetimes::new(Datasets::new());
    let (rev, mut pos) = match take_u64(bytes, 0) {
        Ok(v) => v,
        Err(e) => {
            return Err(e);
        },
    };
    let (nstr, p) = match take_u64(bytes, pos) {
        Ok(v) => v,
        Err(e) => {
            return Err(e);
        },
    };
    pos = p;
    let mut i: u64 = 0;
    while i < nstr
        invariant
            st.wf(),
            pos <= bytes@.len(),
            bytes@.len() >= 8,
            wire::u64_le(rev) == bytes@.subrange(0, 8),
        decreases nstr - i,
    {
        let (key, p1) = match take_text(bytes, pos) {
            Ok(v) => v,
            Err(e) => {
                return Err(e);
            },
        };
        let (value, p2) = match take_text(bytes, p1) {
            Ok(v) => v,
            Err(e) => {
                return Err(e);
            },
        };
        pos = p2;
        st.set(key.as_str(), value.as_str());
        i += 1;
    }
    let (nlist, p) = match take_u64(bytes, pos) {
        Ok(v) => v,
        Err(e) => {
            return Err(e);
        },
    };
    pos = p;
    let mut i2: u64 = 0;
    while i2 < nlist
        invariant
            st.wf(),
            pos <= bytes@.len(),
            bytes@.len() >= 8,
            wire::u64_le(rev) == bytes@.subrange(0, 8),
        decreases nlist - i2,
    {
        let (key, p1) = match take_text(bytes, pos) {
            Ok(v) => v,
            Err(e) => {
                return Err(e);
            },
        };
        let (count, p2) = match take_u64(bytes, p1) {
            Ok(v) => v,
            Err(e) => {
                return Err(e);
            },
        };
        pos = p2;
        let mut a: u64 = 0;
        while a < count
            invariant
                st.wf(),
                pos <= bytes@.len(),
                    bytes@.len() >= 8,
                wire::u64_le(rev) == bytes@.subrange(0, 8),
            decreases count - a,
        {
            let (item, p3) = match take_text(bytes, pos) {
                Ok(v) => v,
                Err(e) => {
                    return Err(e);
                },
            };
            pos = p3;
            let _ = st.append(key.as_str(), item.as_str(), false);
            a += 1;
        }
        i2 += 1;
    }
    let (nz, p) = match take_u64(bytes, pos) {
        Ok(v) => v,
        Err(e) => {
            return Err(e);
        },
    };
    pos = p;
    let mut i3: u64 = 0;
    while i3 < nz
        invariant
            st.wf(),
            pos <= bytes@.len(),
            bytes@.len() >= 8,
            wire::u64_le(rev) == bytes@.subrange(0, 8),
        decreases nz - i3,
    {
        let (key, p1) = match take_text(bytes, pos) {
            Ok(v) => v,
            Err(e) => {
                return Err(e);
            },
        };
        let (count, p2) = match take_u64(bytes, p1) {
            Ok(v) => v,
            Err(e) => {
                return Err(e);
            },
        };
        pos = p2;
        let mut entries: Vec<(Score, String)> = Vec::new();
        let mut a: u64 = 0;
        while a < count
            invariant
                st.wf(),
                pos <= bytes@.len(),
                bytes@.len() >= 8,
                wire::u64_le(rev) == bytes@.subrange(0, 8),
                forall|j: int| 0 <= j < entries@.len() ==> (#[trigger] entries@[j]).0.wf(),
            decreases count - a,
        {
            let (lo, p3) = match take_u64(bytes, pos) {
                Ok(v) => v,
                Err(e) => {
                    return Err(e);
                },
            };
            let (hi, p4) = match take_u64(bytes, p3) {
                Ok(v) => v,
                Err(e) => {
                    return Err(e);
                },
            };
            let (member, p5) = match take_text(bytes, p4) {
                Ok(v) => v,
                Err(e) => {
                    return Err(e);
                },
            };
            pos = p5;
            let units: i128 = (lo as i128) | (((hi as i64) as i128) << 64);
            if units <= -1000000000000000000000000000i128 || units
                >= 1000000000000000000000000000i128 {
                return Err(Error::InvalidData(String::from_str("snapshot out of range")));
            }
            entries.push((Score { units }, member));
            a += 1;
        }
        let opts = AddOptions::plain();
        let _ = st.zadd(key.as_str(), &entries, &opts);
        i3 += 1;
    }
    let (nt, p) = match take_u64(bytes, pos) {
        Ok(v) => v,
        Err(e) => {
            return Err(e);
        },
    };
    pos = p;
    let mut i4: u64 = 0;
    while i4 < nt
        invariant
            st.wf(),
            pos <= bytes@.len(),
            bytes@.len() >= 8,
            wire::u64_le(rev) == bytes@.subrange(0, 8),
        decreases nt - i4,
    {
        let (key, p1) = match take_text(bytes, pos) {
            Ok(v) => v,
            Err(e) => {
                return Err(e);
            },
        };
        let (at, p2) = match take_u64(bytes, p1) {
            Ok(v) => v,
            Err(e) => {
                return Err(e);
            },
        };
        pos = p2;
        st.register_ttl(key.as_str(), 0, at);
        i4 += 1;
    }
    let ghost pre = st;
    st.data.set_revision(Revision(rev));
    proof {
        crate::ttl::lemma_ttl_wf_frame(pre, st);
    }
    Ok(st)
}

} // verus!
