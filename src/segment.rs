//! Names of segment files: `store_file_{id}.txt`, with `id` in decimal and
//! no leading zero but in `0` itself.
use vstd::prelude::*;
use vstd::string::StringSliceAdditionalSpecFns;
use vstd::utf8::encode_utf8;

verus! {

/// `store_file_`
pub open spec fn name_head() -> Seq<u8> {
    seq![115u8, 116, 111, 114, 101, 95, 102, 105, 108, 101, 95]
}

/// `.txt`
pub open spec fn name_tail() -> Seq<u8> {
    seq![46u8, 116, 120, 116]
}

pub open spec fn is_digit(b: u8) -> bool {
    48 <= b <= 57
}

pub open spec fn all_digits(d: Seq<u8>) -> bool {
    forall|i: int| 0 <= i < d.len() ==> is_digit(#[trigger] d[i])
}

/// The number that the decimal digits `d` write.
pub open spec fn decimal_value(d: Seq<u8>) -> int
    decreases d.len(),
{
    if d.len() == 0 {
        0
    } else {
        decimal_value(d.drop_last()) * 10 + (d.last() - 48)
    }
}

/// The id of the segment file named `name`, where the name has the pattern.
pub open spec fn segment_id_of(name: Seq<u8>) -> Option<u64> {
    if name.len() > name_head().len() + name_tail().len() && name.take(11) == name_head()
        && name.skip(name.len() - 4) == name_tail() {
        let d = name.subrange(11, name.len() - 4);
        if all_digits(d) && (d.len() == 1 || d[0] != 48) && decimal_value(d) <= u64::MAX {
            Some(decimal_value(d) as u64)
        } else {
            None
        }
    } else {
        None
    }
}

proof fn lemma_decimal_prefix(d: Seq<u8>, i: int)
    requires
        all_digits(d),
        0 <= i <= d.len(),
    ensures
        0 <= decimal_value(d.take(i)) <= decimal_value(d),
    decreases d.len() - i,
{
    if i < d.len() {
        lemma_decimal_prefix(d, i + 1);
        assert(d.take(i + 1).drop_last() =~= d.take(i));
        assert(is_digit(d[i]));
    } else {
        assert(d.take(i) =~= d);
        lemma_decimal_nonneg(d);
    }
}

proof fn lemma_decimal_nonneg(d: Seq<u8>)
    requires
        all_digits(d),
    ensures
        decimal_value(d) >= 0,
    decreases d.len(),
{
    if d.len() > 0 {
        assert(all_digits(d.drop_last())) by {
            assert forall|i: int| 0 <= i < d.len() - 1 implies is_digit(#[trigger] d.drop_last()[i]) by {
                assert(d.drop_last()[i] == d[i]);
            }
        }
        lemma_decimal_nonneg(d.drop_last());
        assert(is_digit(d[d.len() - 1]));
    }
}

fn lit_at(b: &[u8], p: usize, lit: &Vec<u8>) -> (r: bool)
    requires
        p + lit@.len() <= b@.len(),
    ensures
        r == (b@.subrange(p as int, p + lit@.len()) == lit@),
{
    let mut i: usize = 0;
    while i < lit.len()
        invariant
            p + lit@.len() <= b@.len(),
            b@.len() == b.len(),
            i <= lit@.len(),
            forall|j: int| 0 <= j < i ==> b@[p + j] == lit@[j],
        decreases lit@.len() - i,
    {
        if b[p + i] != lit[i] {
            assert(b@.subrange(p as int, p + lit@.len())[i as int] != lit@[i as int]);
            return false;
        }
        i = i + 1;
    }
    assert(b@.subrange(p as int, p + lit@.len()) =~= lit@);
    true
}

/// The id of the segment file named `name`, or `None` where the name does
/// not have the pattern.
pub fn segment_id(name: &str) -> (r: Option<u64>)
    ensures
        r == segment_id_of(encode_utf8(name@)),
{
    let b = name.as_bytes();
    let n = b.len();
    if n <= 15 {
        return None;
    }
    let head = vec![115u8, 116, 111, 114, 101, 95, 102, 105, 108, 101, 95];
    let tail = vec![46u8, 116, 120, 116];
    assert(head@ =~= name_head());
    assert(tail@ =~= name_tail());
    let ghost bs = b@;
    assert(bs == encode_utf8(name@));
    if !lit_at(b, 0, &head) {
        assert(bs.take(11) =~= bs.subrange(0, 11));
        return None;
    }
    if !lit_at(b, n - 4, &tail) {
        assert(bs.skip(n - 4) =~= bs.subrange(n - 4, n as int));
        return None;
    }
    assert(bs.take(11) =~= bs.subrange(0, 11));
    assert(bs.skip(n - 4) =~= bs.subrange(n - 4, n as int));
    let ghost d = bs.subrange(11, n - 4);
    if b[11] == 48u8 && n - 4 > 12 {
        assert(d[0] == 48);
        return None;
    }
    let mut v: u64 = 0;
    let mut i: usize = 11;
    while i < n - 4
        invariant
            b@ == bs,
            bs == encode_utf8(name@),
            bs.len() > 15,
            bs.take(11) == name_head(),
            bs.skip(n - 4) == name_tail(),
            d.len() == 1 || d[0] != 48,
            n == bs.len(),
            d == bs.subrange(11, n - 4),
            11 <= i <= n - 4,
            v == decimal_value(d.take(i - 11)),
            all_digits(d.take(i - 11)),
        decreases n - 4 - i,
    {
        let x = b[i];
        assert(d[i - 11] == x);
        if x < 48u8 || x > 57u8 {
            assert(!is_digit(d[i - 11]));
            assert(!all_digits(d));
            assert(segment_id_of(bs) is None);
            return None;
        }
        assert(d.take(i - 11 + 1).drop_last() =~= d.take(i - 11));
        let t = match v.checked_mul(10) {
            Some(t) => t,
            None => {
                proof {
                    assert(v * 10 > u64::MAX);
                    lemma_overflow(d, i - 11);
                    assert(segment_id_of(bs) is None);
                }
                return None;
            },
        };
        v = match t.checked_add((x - 48) as u64) {
            Some(w) => w,
            None => {
                proof {
                    lemma_overflow(d, i - 11);
                    assert(segment_id_of(bs) is None);
                }
                return None;
            },
        };
        i = i + 1;
        assert(all_digits(d.take(i - 11))) by {
            assert forall|j: int| 0 <= j < i - 11 implies is_digit(#[trigger] d.take(i - 11)[j]) by {
                if j < i - 12 {
                    assert(d.take(i - 11)[j] == d.take(i - 12)[j]);
                }
            }
        }
    }
    assert(d.take(d.len() as int) =~= d);
    Some(v)
}

/// Where the digits up to position `i` already exceed `u64`, so does the
/// whole, or some byte of it is not a digit.
proof fn lemma_overflow(d: Seq<u8>, i: int)
    requires
        0 <= i < d.len(),
        is_digit(d[i]),
        decimal_value(d.take(i)) * 10 + (d[i] - 48) > u64::MAX,
    ensures
        all_digits(d) ==> decimal_value(d) > u64::MAX,
{
    if all_digits(d) {
        lemma_decimal_prefix(d, i + 1);
        assert(d.take(i + 1).drop_last() =~= d.take(i));
    }
}

/// The ids of the segment files among `names`, strictly ascending; names
/// without the pattern are left out.
pub fn data_file_ids(names: &Vec<String>) -> (r: Vec<u64>)
    ensures
        forall|a: int, b: int| 0 <= a < b < r@.len() ==> r@[a] < r@[b],
        forall|x: u64|
            r@.contains(x) <==> exists|i: int|
                0 <= i < names@.len() && segment_id_of(#[trigger] encode_utf8(names@[i]@))
                    == Some(x),
{
    let mut r: Vec<u64> = Vec::new();
    let mut i: usize = 0;
    while i < names.len()
        invariant
            i <= names@.len(),
            forall|a: int, b: int| 0 <= a < b < r@.len() ==> r@[a] < r@[b],
            forall|x: u64|
                r@.contains(x) <==> exists|j: int|
                    0 <= j < i && segment_id_of(#[trigger] encode_utf8(names@[j]@))
                        == Some(x),
        decreases names@.len() - i,
    {
        if let Some(id) = segment_id(names[i].as_str()) {
            let mut p: usize = 0;
            while p < r.len() && r[p] < id
                invariant
                    p <= r@.len(),
                    forall|a: int| 0 <= a < p ==> r@[a] < id,
                decreases r@.len() - p,
            {
                p = p + 1;
            }
            let ghost old_r = r@;
            if p < r.len() && r[p] == id {
                i = i + 1;
                proof {
                    assert forall|x: u64| r@.contains(x) <==> exists|j: int|
                        0 <= j < i && segment_id_of(#[trigger] encode_utf8(names@[j]@)) == Some(x) by {
                        if x == id {
                            assert(r@[p as int] == x);
                        }
                        if exists|j: int|
                            0 <= j < i && segment_id_of(#[trigger] encode_utf8(names@[j]@)) == Some(x) {
                            let j = choose|j: int|
                                0 <= j < i && segment_id_of(#[trigger] encode_utf8(names@[j]@))
                                    == Some(x);
                            if j == i - 1 {
                                assert(x == id);
                                assert(r@[p as int] == x);
                            } else {
                                assert(exists|j2: int|
                                    0 <= j2 < i - 1 && segment_id_of(
                                        #[trigger] encode_utf8(names@[j2]@),
                                    ) == Some(x));
                            }
                        }
                    }
                }
                continue;
            }
            r.insert(p, id);
            proof {
                assert forall|a: int, b: int| 0 <= a < b < r@.len() implies r@[a] < r@[b] by {
                    if b < p {
                    } else if b == p {
                    } else if a < p {
                        assert(r@[b] == old_r[b - 1]);
                        assert(old_r[p as int] >= id);
                    } else if a == p {
                        assert(r@[b] == old_r[b - 1]);
                        assert(old_r[p as int] >= id);
                    } else {
                        assert(r@[a] == old_r[a - 1] && r@[b] == old_r[b - 1]);
                    }
                }
                assert forall|x: u64| r@.contains(x) <==> exists|j: int|
                    0 <= j < i + 1 && segment_id_of(#[trigger] encode_utf8(names@[j]@))
                        == Some(x) by {
                    if r@.contains(x) {
                        let a = choose|a: int| 0 <= a < r@.len() && r@[a] == x;
                        if a != p {
                            let a2 = if a < p { a } else { a - 1 };
                            assert(old_r[a2] == x);
                            assert(old_r.contains(x));
                        }
                    }
                    if exists|j: int|
                        0 <= j < i + 1 && segment_id_of(#[trigger] encode_utf8(names@[j]@))
                            == Some(x) {
                        let j = choose|j: int|
                            0 <= j < i + 1 && segment_id_of(
                                #[trigger] encode_utf8(names@[j]@),
                            ) == Some(x);
                        if j < i {
                            assert(old_r.contains(x));
                            let a = choose|a: int| 0 <= a < old_r.len() && old_r[a] == x;
                            if a < p {
                                assert(r@[a] == x);
                            } else {
                                assert(r@[a + 1] == x);
                            }
                        } else {
                            assert(r@[p as int] == x);
                        }
                    }
                }
            }
        }
        i = i + 1;
    }
    r
}

/// The ids among `ids` that lie below `n`: the segments that a compaction
/// onto segment `n` leaves for deletion.
pub fn stale_segments(ids: &Vec<u64>, n: u64) -> (r: Vec<u64>)
    ensures
        forall|x: u64| r@.contains(x) <==> ids@.contains(x) && x < n,
{
    let mut r: Vec<u64> = Vec::new();
    let mut i: usize = 0;
    while i < ids.len()
        invariant
            i <= ids@.len(),
            forall|x: u64|
                r@.contains(x) <==> (exists|j: int| 0 <= j < i && #[trigger] ids@[j] == x) && x < n,
        decreases ids@.len() - i,
    {
        let ghost old_r = r@;
        if ids[i] < n {
            r.push(ids[i]);
        }
        proof {
            assert forall|x: u64|
                r@.contains(x) <==> (exists|j: int| 0 <= j < i + 1 && #[trigger] ids@[j] == x) && x
                    < n by {
                if r@.contains(x) && !old_r.contains(x) {
                    assert(r@[old_r.len() as int] == x);
                }
                if old_r.contains(x) {
                    let a = choose|a: int| 0 <= a < old_r.len() && old_r[a] == x;
                    assert(r@[a] == x);
                }
                if (exists|j: int| 0 <= j < i + 1 && #[trigger] ids@[j] == x) && x < n {
                    let j = choose|j: int| 0 <= j < i + 1 && #[trigger] ids@[j] == x;
                    if j == i {
                        assert(r@[r@.len() - 1] == x);
                    }
                }
            }
        }
        i = i + 1;
    }
    r
}

} // verus!
