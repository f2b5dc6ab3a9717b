//! Sorted, duplicate-free lists of names: output device names and the
//! machine's IPv4 addresses as announced to senders.
use vstd::prelude::*;
use vstd::utf8::encode_utf8;
use crate::text::{decimal, push_decimal};

verus! {

/// Byte-wise lexicographic order, the order of `str`'s `Ord`.
pub open spec fn bytes_lt(a: Seq<u8>, b: Seq<u8>) -> bool
    decreases a.len(),
{
    if a.len() == 0 {
        b.len() > 0
    } else if b.len() == 0 {
        false
    } else if a[0] != b[0] {
        a[0] < b[0]
    } else {
        bytes_lt(a.drop_first(), b.drop_first())
    }
}

/// `a` sorts before `b` as strings do (by their UTF-8 bytes).
pub open spec fn text_lt(a: Seq<char>, b: Seq<char>) -> bool {
    bytes_lt(encode_utf8(a), encode_utf8(b))
}

/// `r` lists, in strictly increasing order, exactly the texts of `src`.
pub open spec fn sorted_set_of(r: Seq<Seq<char>>, src: Seq<Seq<char>>) -> bool {
    &&& forall|i: int| 0 <= i < r.len() - 1 ==> text_lt(#[trigger] r[i], r[i + 1])
    &&& forall|i: int| 0 <= i < r.len() ==> src.contains(#[trigger] r[i])
    &&& forall|j: int| 0 <= j < src.len() ==> r.contains(#[trigger] src[j])
}

pub open spec fn texts(v: Seq<String>) -> Seq<Seq<char>> {
    v.map_values(|s: String| s@)
}

/// `a` is a proper prefix of `b`.
pub open spec fn proper_prefix(a: Seq<u8>, b: Seq<u8>) -> bool {
    a.len() < b.len() && b.take(a.len() as int) == a
}

/// `a` and `b` agree before position `i` and `a` has the smaller byte there.
pub open spec fn first_smaller_at(a: Seq<u8>, b: Seq<u8>, i: int) -> bool {
    &&& 0 <= i < a.len()
    &&& i < b.len()
    &&& a.take(i) == b.take(i)
    &&& a[i] < b[i]
}

/// The order of byte strings is the lexicographic one: `a` sorts before `b`
/// exactly when `a` is a proper prefix of `b` (so the empty string comes before
/// every other, and a text before each of its extensions), or when at the first
/// position where they differ `a` has the smaller byte.
pub proof fn lemma_bytes_lt_lexicographic(a: Seq<u8>, b: Seq<u8>)
    ensures
        bytes_lt(a, b) <==> (proper_prefix(a, b) || exists|i: int| first_smaller_at(a, b, i)),
    decreases a.len(),
{
    if a.len() == 0 {
        assert(b.take(0) =~= a);
    } else if b.len() == 0 {
    } else if a[0] != b[0] {
        if a[0] < b[0] {
            assert(a.take(0) =~= b.take(0));
            assert(first_smaller_at(a, b, 0));
        }
        assert forall|i: int| first_smaller_at(a, b, i) implies a[0] < b[0] by {
            if i > 0 {
                assert(a.take(i)[0] == b.take(i)[0]);
            }
        }
        if proper_prefix(a, b) {
            assert(b.take(a.len() as int)[0] == b[0]);
        }
    } else {
        let a1 = a.drop_first();
        let b1 = b.drop_first();
        lemma_bytes_lt_lexicographic(a1, b1);
        if proper_prefix(a1, b1) {
            assert forall|k: int| 0 <= k < a.len() implies #[trigger] b.take(a.len() as int)[k] == a[k] by {
                if k > 0 {
                    assert(b1.take(a1.len() as int)[k - 1] == a1[k - 1]);
                }
            }
            assert(b.take(a.len() as int) =~= a);
        }
        if proper_prefix(a, b) {
            assert(b1.take(a1.len() as int) =~= b.take(a.len() as int).drop_first());
            assert(b1.take(a1.len() as int) =~= a1);
        }
        if exists|j: int| first_smaller_at(a1, b1, j) {
            let j = choose|j: int| first_smaller_at(a1, b1, j);
            assert(a.take(j + 1) =~= seq![a[0]] + a1.take(j));
            assert(b.take(j + 1) =~= seq![b[0]] + b1.take(j));
            assert(first_smaller_at(a, b, j + 1));
        }
        if exists|i: int| first_smaller_at(a, b, i) {
            let i = choose|i: int| first_smaller_at(a, b, i);
            assert(i > 0);
            assert(a1.take(i - 1) =~= a.take(i).drop_first());
            assert(b1.take(i - 1) =~= b.take(i).drop_first());
            assert(first_smaller_at(a1, b1, i - 1));
        }
    }
}

/// Two byte strings neither of which sorts before the other are equal.
pub proof fn lemma_bytes_lt_total(a: Seq<u8>, b: Seq<u8>)
    requires
        !bytes_lt(a, b),
        !bytes_lt(b, a),
    ensures
        a == b,
    decreases a.len(),
{
    if a.len() > 0 && b.len() > 0 {
        lemma_bytes_lt_total(a.drop_first(), b.drop_first());
        assert(a =~= seq![a[0]] + a.drop_first());
        assert(b =~= seq![b[0]] + b.drop_first());
    } else {
        assert(a.len() == 0 && b.len() == 0);
        assert(a =~= b);
    }
}

/// No byte string sorts before itself.
pub proof fn lemma_bytes_lt_irreflexive(a: Seq<u8>)
    ensures
        !bytes_lt(a, a),
    decreases a.len(),
{
    if a.len() > 0 {
        lemma_bytes_lt_irreflexive(a.drop_first());
    }
}

/// Whether `a` sorts before `b` byte-wise.
fn bytes_less(a: &[u8], b: &[u8]) -> (r: bool)
    ensures
        r == bytes_lt(a@, b@),
{
    let mut i: usize = 0;
    assert(a@.skip(0) =~= a@);
    assert(b@.skip(0) =~= b@);
    while i < a.len() && i < b.len()
        invariant
            i <= a@.len(),
            i <= b@.len(),
            bytes_lt(a@, b@) == bytes_lt(a@.skip(i as int), b@.skip(i as int)),
        decreases a@.len() - i,
    {
        if a[i] != b[i] {
            return a[i] < b[i];
        }
        assert(a@.skip(i as int).drop_first() =~= a@.skip(i + 1));
        assert(b@.skip(i as int).drop_first() =~= b@.skip(i + 1));
        i = i + 1;
    }
    i == a.len() && i < b.len()
}

/// Whether the text of `a` sorts before that of `b`.
fn text_less(a: &String, b: &String) -> (r: bool)
    ensures
        r == text_lt(a@, b@),
{
    bytes_less(a.as_str().as_bytes(), b.as_str().as_bytes())
}

/// Strictly increasing texts.
pub open spec fn increasing(r: Seq<Seq<char>>) -> bool {
    forall|i: int| 0 <= i < r.len() - 1 ==> text_lt(#[trigger] r[i], r[i + 1])
}

/// Adds `name` to the increasing list `r` unless it is there already.
fn insert_sorted(r: &mut Vec<String>, name: &String)
    requires
        increasing(texts(old(r)@)),
    ensures
        increasing(texts(final(r)@)),
        texts(final(r)@).contains(name@),
        forall|i: int| 0 <= i < final(r)@.len() ==> #[trigger] final(r)@[i]@ == name@
            || texts(old(r)@).contains(final(r)@[i]@),
        forall|i: int| 0 <= i < old(r)@.len() ==> texts(final(r)@).contains(#[trigger] old(r)@[i]@),
{
    let mut p: usize = 0;
    while p < r.len() && text_less(&r[p], name)
        invariant
            p <= r@.len(),
            forall|i: int| 0 <= i < p ==> text_lt(#[trigger] r@[i]@, name@),
        decreases r@.len() - p,
    {
        p = p + 1;
    }
    let ghost old_r = r@;
    if p < r.len() && !text_less(name, &r[p]) {
        proof {
            lemma_bytes_lt_total(encode_utf8(r@[p as int]@), encode_utf8(name@));
            vstd::utf8::encode_utf8_decode_utf8(r@[p as int]@);
            vstd::utf8::encode_utf8_decode_utf8(name@);
            assert(texts(r@)[p as int] == name@);
            assert forall|i: int| 0 <= i < old_r.len() implies texts(r@).contains(#[trigger] old_r[i]@) by {
                assert(texts(r@)[i] == old_r[i]@);
            }
        }
        return;
    }
    r.insert(p, name.clone());
    proof {
        assert(r@[p as int]@ == name@);
        assert forall|i: int| 0 <= i < r@.len() - 1 implies text_lt(#[trigger] texts(r@)[i], texts(r@)[i + 1]) by {
            if i < p as int - 1 {
                assert(r@[i] == old_r[i] && r@[i + 1] == old_r[i + 1]);
                assert(text_lt(texts(old_r)[i], texts(old_r)[i + 1]));
            } else if i == p as int - 1 {
                assert(r@[i] == old_r[i]);
            } else if i == p as int {
                assert(r@[i + 1] == old_r[i]);
            } else {
                assert(r@[i] == old_r[i - 1] && r@[i + 1] == old_r[i]);
                assert(text_lt(texts(old_r)[i - 1], texts(old_r)[i]));
            }
        }
        assert(texts(r@)[p as int] == name@);
        assert forall|i: int| 0 <= i < r@.len() implies #[trigger] r@[i]@ == name@
            || texts(old_r).contains(r@[i]@) by {
            if i < p {
                assert(texts(old_r)[i] == r@[i]@);
            } else if i > p {
                assert(texts(old_r)[i - 1] == r@[i]@);
            }
        }
        assert forall|i: int| 0 <= i < old_r.len() implies texts(r@).contains(#[trigger] old_r[i]@) by {
            if i < p {
                assert(texts(r@)[i] == old_r[i]@);
            } else {
                assert(texts(r@)[i + 1] == old_r[i]@);
            }
        }
    }
}

/// The texts of `names` without repetition, in increasing order.
pub fn sorted_unique(names: &Vec<String>) -> (r: Vec<String>)
    ensures
        sorted_set_of(texts(r@), texts(names@)),
{
    let ghost src = texts(names@);
    let mut r: Vec<String> = Vec::new();
    let mut k: usize = 0;
    while k < names.len()
        invariant
            src == texts(names@),
            k <= names@.len(),
            increasing(texts(r@)),
            forall|i: int| 0 <= i < r@.len() ==> src.take(k as int).contains(#[trigger] r@[i]@),
            forall|j: int| 0 <= j < k ==> texts(r@).contains(#[trigger] src[j]),
        decreases names@.len() - k,
    {
        let ghost old_r = r@;
        insert_sorted(&mut r, &names[k]);
        proof {
            assert(src[k as int] == names@[k as int]@);
            assert(src.take(k + 1) =~= src.take(k as int).push(src[k as int]));
            assert forall|i: int| 0 <= i < r@.len() implies src.take(k + 1).contains(#[trigger] r@[i]@) by {
                if r@[i]@ == names@[k as int]@ {
                    assert(src.take(k + 1)[k as int] == r@[i]@);
                } else {
                    let t = choose|t: int| 0 <= t < old_r.len() && texts(old_r)[t] == r@[i]@;
                    assert(src.take(k as int).contains(old_r[t]@));
                    let u = choose|u: int| 0 <= u < k && src.take(k as int)[u] == old_r[t]@;
                    assert(src.take(k + 1)[u] == r@[i]@);
                }
            }
            assert forall|j: int| 0 <= j < k + 1 implies texts(r@).contains(#[trigger] src[j]) by {
                if j < k {
                    let t = choose|t: int| 0 <= t < old_r.len() && texts(old_r)[t] == src[j];
                    assert(texts(r@).contains(old_r[t]@));
                }
            }
        }
        k = k + 1;
    }
    proof {
        assert(src.take(names@.len() as int) =~= src);
        assert forall|i: int| 0 <= i < r@.len() implies src.contains(#[trigger] texts(r@)[i]) by {
            assert(src.take(names@.len() as int).contains(r@[i]@));
        }
    }
    r
}

/// The dotted-decimal text of an IPv4 address.
pub open spec fn ipv4_text(octets: Seq<u8>) -> Seq<char> {
    decimal(octets[0] as nat) + seq!['.'] + decimal(octets[1] as nat) + seq!['.']
        + decimal(octets[2] as nat) + seq!['.'] + decimal(octets[3] as nat)
}

/// The loopback address, always announced.
pub open spec fn loopback() -> Seq<u8> {
    seq![127u8, 0u8, 0u8, 1u8]
}

/// The dotted-decimal text of an IPv4 address, as `Ipv4Addr` displays it.
pub fn ipv4_text_of(octets: [u8; 4]) -> (s: String)
    ensures
        s@ == ipv4_text(octets@),
{
    let mut s = String::new();
    proof {
        reveal_strlit(".");
    }
    push_decimal(&mut s, octets[0] as u64);
    s.append(".");
    push_decimal(&mut s, octets[1] as u64);
    s.append(".");
    push_decimal(&mut s, octets[2] as u64);
    s.append(".");
    push_decimal(&mut s, octets[3] as u64);
    assert(s@ =~= ipv4_text(octets@));
    s
}

/// The texts of the machine's IPv4 addresses and of the loopback address,
/// without repetition, in increasing order.
pub fn local_ipv4_list(addresses: &Vec<[u8; 4]>) -> (r: Vec<String>)
    ensures
        sorted_set_of(
            texts(r@),
            addresses@.map_values(|a: [u8; 4]| ipv4_text(a@)).push(ipv4_text(loopback())),
        ),
{
    let mut all: Vec<String> = Vec::new();
    let mut k: usize = 0;
    while k < addresses.len()
        invariant
            k <= addresses@.len(),
            texts(all@) == addresses@.map_values(|a: [u8; 4]| ipv4_text(a@)).take(k as int),
        decreases addresses@.len() - k,
    {
        let text = ipv4_text_of(addresses[k]);
        let ghost before = all@;
        all.push(text);
        assert(texts(all@) =~= texts(before).push(text@));
        assert(addresses@.map_values(|a: [u8; 4]| ipv4_text(a@)).take(k + 1)
            =~= addresses@.map_values(|a: [u8; 4]| ipv4_text(a@)).take(k as int).push(text@));
        k = k + 1;
    }
    let loop_back: [u8; 4] = [127, 0, 0, 1];
    let ghost before = all@;
    all.push(ipv4_text_of(loop_back));
    assert(loop_back@ =~= loopback());
    assert(texts(all@) =~= texts(before).push(ipv4_text(loopback())));
    assert(addresses@.map_values(|a: [u8; 4]| ipv4_text(a@)).take(addresses@.len() as int)
        =~= addresses@.map_values(|a: [u8; 4]| ipv4_text(a@)));
    sorted_unique(&all)
}

} // verus!
