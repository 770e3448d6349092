//! The bounded most-recently-used store of launched application names.

use vstd::prelude::*;
use vstd::bytes::{
    lemma_auto_spec_u64_to_from_le_bytes, spec_u64_from_le_bytes, spec_u64_to_le_bytes,
};
use vstd::utf8::{decode_utf8, encode_utf8, encode_utf8_decode_utf8};

verus! {

broadcast use vstd::seq_lib::group_seq_properties;

/// The number of names that a store keeps unless told otherwise.
pub const DEFAULT_CAPACITY: usize = 10;

/// Names of launched applications, most recent first, without repeats and
/// never more than the store's capacity.
pub struct RecencyStore {
    names: Vec<String>,
    capacity: usize,
}

/// The names of a vector of strings, as sequences of characters.
pub open spec fn names_of(v: Seq<String>) -> Seq<Seq<char>> {
    v.map_values(|s: String| s@)
}

impl View for RecencyStore {
    type V = Seq<Seq<char>>;

    closed spec fn view(&self) -> Seq<Seq<char>> {
        names_of(self.names@)
    }
}

/// `s` without any occurrence of `x`.
pub open spec fn without(s: Seq<Seq<char>>, x: Seq<char>) -> Seq<Seq<char>> {
    s.filter(|y: Seq<char>| y != x)
}

/// The names after launching `x` with capacity `k`: `x` first, then the
/// earlier names other than `x`, cut to `k` names.
pub open spec fn after_launch(s: Seq<Seq<char>>, x: Seq<char>, k: nat) -> Seq<Seq<char>> {
    let t = seq![x] + without(s, x);
    if t.len() > k {
        t.take(k as int)
    } else {
        t
    }
}

/// A sequence of names is a valid store content for capacity `k`.
pub open spec fn valid_names(s: Seq<Seq<char>>, k: nat) -> bool {
    s.no_duplicates() && s.len() <= k
}

/// Filtering out a value that does not occur changes nothing.
pub proof fn lemma_without_absent(s: Seq<Seq<char>>, x: Seq<char>)
    requires
        !s.contains(x),
    ensures
        without(s, x) == s,
    decreases s.len(),
{
    reveal(Seq::filter);
    if s.len() > 0 {
        assert(!s.drop_last().contains(x)) by {
            if s.drop_last().contains(x) {
                let j = choose|j: int| 0 <= j < s.drop_last().len() && s.drop_last()[j] == x;
                assert(s[j] == x);
            }
        }
        lemma_without_absent(s.drop_last(), x);
        assert(s.last() != x) by {
            assert(s[s.len() - 1] == s.last());
        }
        assert(s.drop_last().push(s.last()) == s);
    }
}

/// In a sequence without repeats, filtering out the value at `i` is
/// removing position `i`.
pub proof fn lemma_without_at(s: Seq<Seq<char>>, i: int)
    requires
        s.no_duplicates(),
        0 <= i < s.len(),
    ensures
        without(s, s[i]) == s.remove(i),
{
    let x = s[i];
    let a = s.take(i);
    let b = s.skip(i + 1);
    assert(s == a + seq![x] + b);
    assert(!a.contains(x)) by {
        if a.contains(x) {
            let j = choose|j: int| 0 <= j < a.len() && a[j] == x;
            assert(s[j] == s[i]);
        }
    }
    assert(!b.contains(x)) by {
        if b.contains(x) {
            let j = choose|j: int| 0 <= j < b.len() && b[j] == x;
            assert(s[i + 1 + j] == s[i]);
        }
    }
    lemma_without_absent(a, x);
    lemma_without_absent(b, x);
    Seq::filter_distributes_over_add(a + seq![x], b, |y: Seq<char>| y != x);
    Seq::filter_distributes_over_add(a, seq![x], |y: Seq<char>| y != x);
    reveal(Seq::filter);
    assert(seq![x].drop_last() == Seq::<Seq<char>>::empty());
    assert(seq![x].filter(|y: Seq<char>| y != x) == Seq::<Seq<char>>::empty());
    assert(s.remove(i) == a + b);
}

/// Filtering keeps a sequence free of repeats.
pub proof fn lemma_without_no_duplicates(s: Seq<Seq<char>>, x: Seq<char>)
    requires
        s.no_duplicates(),
    ensures
        without(s, x).no_duplicates(),
        !without(s, x).contains(x),
        forall|y: Seq<char>| #[trigger] without(s, x).contains(y) <==> (s.contains(y) && y != x),
    decreases s.len(),
{
    reveal(Seq::filter);
    let p = |y: Seq<char>| y != x;
    if s.len() > 0 {
        let d = s.drop_last();
        assert(d.no_duplicates());
        lemma_without_no_duplicates(d, x);
        assert forall|y: Seq<char>| #[trigger] s.contains(y) <==> (d.contains(y) || y == s.last()) by {
            if s.contains(y) {
                let j = choose|j: int| 0 <= j < s.len() && s[j] == y;
                if j < s.len() - 1 {
                    assert(d[j] == y);
                }
            }
            if d.contains(y) {
                let j = choose|j: int| 0 <= j < d.len() && d[j] == y;
                assert(s[j] == y);
            }
            if y == s.last() {
                assert(s[s.len() - 1] == y);
            }
        }
        assert(!d.contains(s.last())) by {
            if d.contains(s.last()) {
                let j = choose|j: int| 0 <= j < d.len() && d[j] == s.last();
                assert(s[j] == s[s.len() - 1]);
            }
        }
        let fd = without(d, x);
        if s.last() != x {
            assert(without(s, x) == fd.push(s.last()));
            assert(!fd.contains(s.last()));
            assert forall|a: int, b: int| 0 <= a < b < fd.len() + 1 implies fd.push(s.last())[a]
                != fd.push(s.last())[b] by {
                if b == fd.len() {
                    assert(fd.contains(fd[a]));
                }
            }
            assert forall|y: Seq<char>| #[trigger] fd.push(s.last()).contains(y) <==> (fd.contains(y) || y == s.last()) by {
                if fd.push(s.last()).contains(y) {
                    let j = choose|j: int| 0 <= j < fd.len() + 1 && fd.push(s.last())[j] == y;
                    if j < fd.len() {
                        assert(fd[j] == y);
                    }
                }
                if fd.contains(y) {
                    let j = choose|j: int| 0 <= j < fd.len() && fd[j] == y;
                    assert(fd.push(s.last())[j] == y);
                }
                if y == s.last() {
                    assert(fd.push(s.last())[fd.len() as int] == y);
                }
            }
        } else {
            assert(without(s, x) == fd);
        }
    } else {
        assert(without(s, x) == s);
    }
}

/// Launching a name that a valid store already holds puts that name first
/// and leaves the number of names as it was.
pub proof fn lemma_launch_present(s: Seq<Seq<char>>, x: Seq<char>, k: nat)
    requires
        valid_names(s, k),
        s.contains(x),
    ensures
        after_launch(s, x, k).len() == s.len(),
        after_launch(s, x, k)[0] == x,
{
    let i = choose|i: int| 0 <= i < s.len() && s[i] == x;
    lemma_without_at(s, i);
}

/// The names after launching each of `es` in turn, starting from `s`, with
/// capacity `k`.
pub open spec fn launches(s: Seq<Seq<char>>, es: Seq<Seq<char>>, k: nat) -> Seq<Seq<char>>
    decreases es.len(),
{
    if es.len() == 0 {
        s
    } else {
        after_launch(launches(s, es.drop_last(), k), es.last(), k)
    }
}

/// The position of the last occurrence of `x` in `es`, or -1 if none.
pub open spec fn last_pos(es: Seq<Seq<char>>, x: Seq<char>) -> int
    decreases es.len(),
{
    if es.len() == 0 {
        -1
    } else if es.last() == x {
        es.len() - 1
    } else {
        last_pos(es.drop_last(), x)
    }
}

proof fn lemma_last_pos(es: Seq<Seq<char>>, x: Seq<char>)
    ensures
        -1 <= last_pos(es, x) < es.len(),
        last_pos(es, x) >= 0 <==> es.contains(x),
    decreases es.len(),
{
    if es.len() > 0 {
        let d = es.drop_last();
        lemma_last_pos(d, x);
        if es.last() == x {
            assert(es[es.len() - 1] == x);
        } else {
            if es.contains(x) {
                let j = choose|j: int| 0 <= j < es.len() && es[j] == x;
                assert(j < es.len() - 1);
                assert(d[j] == x);
            }
            if d.contains(x) {
                let j = choose|j: int| 0 <= j < d.len() && d[j] == x;
                assert(es[j] == x);
            }
        }
    }
}

/// Filtering keeps only elements of the input and keeps an order that
/// strictly decreases in `f`.
proof fn lemma_without_sorted(s: Seq<Seq<char>>, x: Seq<char>, f: spec_fn(Seq<char>) -> int)
    requires
        forall|i: int, j: int| 0 <= i < j < s.len() ==> f(s[i]) > f(s[j]),
    ensures
        forall|i: int| 0 <= i < without(s, x).len() ==> s.contains(#[trigger] without(s, x)[i]),
        forall|i: int, j: int|
            0 <= i < j < without(s, x).len() ==> f(without(s, x)[i]) > f(without(s, x)[j]),
    decreases s.len(),
{
    reveal(Seq::filter);
    if s.len() > 0 {
        let d = s.drop_last();
        lemma_without_sorted(d, x, f);
        let wd = without(d, x);
        assert forall|i: int| 0 <= i < wd.len() implies s.contains(#[trigger] wd[i]) && f(wd[i]) > f(
            s.last(),
        ) by {
            let k = choose|k: int| 0 <= k < d.len() && d[k] == wd[i];
            assert(s[k] == wd[i]);
            assert(s[s.len() - 1] == s.last());
        }
        if s.last() != x {
            assert(without(s, x) == wd.push(s.last()));
            assert(s[s.len() - 1] == s.last());
        } else {
            assert(without(s, x) == wd);
        }
    }
}

/// After any run of launches from an empty store with capacity `k`, the
/// store holds the most recently launched distinct names, newest first:
/// no name twice, at most `k` names, each one launched, in decreasing order
/// of their last launch; and a launched name is missing only when the store
/// is full of names launched after it.
pub proof fn lemma_launches_keep_last_distinct(es: Seq<Seq<char>>, k: nat)
    ensures
        launches(Seq::empty(), es, k).no_duplicates(),
        launches(Seq::empty(), es, k).len() <= k,
        forall|i: int|
            0 <= i < launches(Seq::empty(), es, k).len() ==> es.contains(
                #[trigger] launches(Seq::empty(), es, k)[i],
            ),
        forall|i: int, j: int|
            0 <= i < j < launches(Seq::empty(), es, k).len() ==> last_pos(
                es,
                launches(Seq::empty(), es, k)[i],
            ) > last_pos(es, launches(Seq::empty(), es, k)[j]),
        forall|y: Seq<char>|
            es.contains(y) && !launches(Seq::empty(), es, k).contains(y) ==> launches(
                Seq::empty(),
                es,
                k,
            ).len() == k && forall|i: int|
                0 <= i < launches(Seq::empty(), es, k).len() ==> last_pos(
                    es,
                    #[trigger] launches(Seq::empty(), es, k)[i],
                ) > last_pos(es, y),
    decreases es.len(),
{
    let r = launches(Seq::empty(), es, k);
    if es.len() > 0 {
        let ep = es.drop_last();
        let x = es.last();
        let m = es.len() as int;
        let rp = launches(Seq::empty(), ep, k);
        lemma_launches_keep_last_distinct(ep, k);
        let w = without(rp, x);
        let t = seq![x] + w;
        lemma_without_no_duplicates(rp, x);
        let fp = |y: Seq<char>| last_pos(ep, y);
        lemma_without_sorted(rp, x, fp);
        assert(last_pos(es, x) == m - 1);
        assert forall|y: Seq<char>| y != x implies #[trigger] last_pos(es, y) == last_pos(ep, y) by {}
        assert forall|y: Seq<char>| #[trigger] es.contains(y) <==> (ep.contains(y) || y == x) by {
            lemma_last_pos(es, y);
            lemma_last_pos(ep, y);
            lemma_last_pos(es, x);
        }
        // Every name kept from before was launched before, and earlier than x.
        assert forall|i: int| 0 <= i < w.len() implies #[trigger] w[i] != x && ep.contains(w[i])
            && last_pos(es, w[i]) == last_pos(ep, w[i]) && last_pos(es, w[i]) < m - 1 by {
            assert(w.contains(w[i]));
            let q = choose|q: int| 0 <= q < rp.len() && rp[q] == w[i];
            assert(ep.contains(rp[q]));
            lemma_last_pos(ep, w[i]);
        }
        assert(t.no_duplicates()) by {
            assert forall|a: int, b: int| 0 <= a < b < t.len() implies t[a] != t[b] by {
                if a == 0 {
                    assert(t[b] == w[b - 1]);
                } else {
                    assert(t[a] == w[a - 1] && t[b] == w[b - 1]);
                }
            }
        }
        assert forall|a: int, b: int| 0 <= a < b < t.len() implies last_pos(es, t[a]) > last_pos(
            es,
            t[b],
        ) by {
            assert(t[b] == w[b - 1]);
            if a > 0 {
                assert(t[a] == w[a - 1]);
                assert(fp(w[a - 1]) > fp(w[b - 1]));
            }
        }
        assert forall|i: int| 0 <= i < t.len() implies es.contains(#[trigger] t[i]) by {
            if i > 0 {
                assert(t[i] == w[i - 1]);
            }
        }
        assert(r == if t.len() > k {
            t.take(k as int)
        } else {
            t
        });
        assert forall|i: int| 0 <= i < r.len() implies #[trigger] r[i] == t[i] by {}
        assert(r.no_duplicates()) by {
            assert forall|a: int, b: int| 0 <= a < b < r.len() implies r[a] != r[b] by {
                assert(r[a] == t[a] && r[b] == t[b]);
            }
        }
        assert forall|i: int| 0 <= i < r.len() implies es.contains(#[trigger] r[i]) by {
            assert(r[i] == t[i]);
        }
        assert forall|y: Seq<char>| es.contains(y) && !r.contains(y) implies r.len() == k
            && forall|i: int| 0 <= i < r.len() ==> last_pos(es, #[trigger] r[i]) > last_pos(es, y) by {
            if t.contains(y) {
                let p = choose|p: int| 0 <= p < t.len() && t[p] == y;
                if p < r.len() {
                    assert(r[p] == y);
                }
                assert forall|i: int| 0 <= i < r.len() implies last_pos(es, #[trigger] r[i])
                    > last_pos(es, y) by {
                    assert(r[i] == t[i]);
                }
            } else {
                if y == x {
                    assert(t[0] == y);
                }
                assert(ep.contains(y));
                if rp.contains(y) {
                    assert(w.contains(y));
                    let q = choose|q: int| 0 <= q < w.len() && w[q] == y;
                    assert(t[q + 1] == y);
                }
                assert(rp.len() == k);
                lemma_last_pos(ep, y);
                assert(w.len() >= k - 1) by {
                    if rp.contains(x) {
                        let q = choose|q: int| 0 <= q < rp.len() && rp[q] == x;
                        lemma_without_at(rp, q);
                    } else {
                        lemma_without_absent(rp, x);
                    }
                }
                assert forall|i: int| 0 <= i < r.len() implies last_pos(es, #[trigger] r[i])
                    > last_pos(es, y) by {
                    assert(r[i] == t[i]);
                    if i > 0 {
                        assert(t[i] == w[i - 1]);
                        let q = choose|q: int| 0 <= q < rp.len() && rp[q] == w[i - 1];
                        assert(last_pos(ep, rp[q]) > last_pos(ep, y));
                    }
                }
            }
        }
    }
}

#[verifier::external_type_specification]
#[verifier::external_body]
pub struct ExBincodeErrorKind(bincode::ErrorKind);

/// Why a store could not be written or read back.
#[derive(Clone, Copy, Debug, PartialEq, Eq)]
pub enum CacheError {
    /// The names could not be encoded.
    Encode,
    /// The bytes do not encode a sequence of strings.
    Decode,
    /// The decoded names repeat a name or exceed the capacity.
    Invalid,
}

/// One string in bincode's fixed-width form: its byte count as eight
/// little-endian bytes, then its UTF-8 bytes.
pub open spec fn encoded_string(s: Seq<char>) -> Seq<u8> {
    spec_u64_to_le_bytes(encode_utf8(s).len() as u64) + encode_utf8(s)
}

/// The strings of `s`, each in bincode's fixed-width form, one after another.
pub open spec fn encoded_strings(s: Seq<Seq<char>>) -> Seq<u8>
    decreases s.len(),
{
    if s.len() == 0 {
        Seq::empty()
    } else {
        encoded_string(s[0]) + encoded_strings(s.skip(1))
    }
}

/// A sequence of strings in bincode's fixed-width form: the count as eight
/// little-endian bytes, then the strings.
pub open spec fn encoded_names(s: Seq<Seq<char>>) -> Seq<u8> {
    spec_u64_to_le_bytes(s.len() as u64) + encoded_strings(s)
}

/// `p` is a prefix of `b`.
pub open spec fn is_prefix(p: Seq<u8>, b: Seq<u8>) -> bool {
    p.len() <= b.len() && b.take(p.len() as int) == p
}

/// The strings that bytes `b` hold: those whose encoded form begins `b`
/// (bytes after it are ignored), if there are any.
pub open spec fn decoded_names(b: Seq<u8>) -> Option<Seq<Seq<char>>> {
    if exists|s: Seq<Seq<char>>| is_prefix(encoded_names(s), b) {
        Some(choose|s: Seq<Seq<char>>| is_prefix(encoded_names(s), b))
    } else {
        None
    }
}

/// Each encoded string takes at least eight bytes.
proof fn lemma_encoded_strings_len(s: Seq<Seq<char>>)
    ensures
        encoded_strings(s).len() >= 8 * s.len(),
    decreases s.len(),
{
    lemma_auto_spec_u64_to_from_le_bytes();
    if s.len() > 0 {
        lemma_encoded_strings_len(s.skip(1));
    }
}

/// Two runs of the same number of encoded strings that both begin `c` hold
/// the same strings.
proof fn lemma_strings_unique(s1: Seq<Seq<char>>, s2: Seq<Seq<char>>, c: Seq<u8>)
    requires
        s1.len() == s2.len(),
        c.len() <= u64::MAX,
        is_prefix(encoded_strings(s1), c),
        is_prefix(encoded_strings(s2), c),
    ensures
        s1 == s2,
    decreases s1.len(),
{
    if s1.len() > 0 {
        lemma_auto_spec_u64_to_from_le_bytes();
        broadcast use encode_utf8_decode_utf8;

        let u1 = encode_utf8(s1[0]);
        let u2 = encode_utf8(s2[0]);
        let r1 = encoded_strings(s1.skip(1));
        let r2 = encoded_strings(s2.skip(1));
        let l1 = spec_u64_to_le_bytes(u1.len() as u64);
        let l2 = spec_u64_to_le_bytes(u2.len() as u64);
        assert(encoded_strings(s1) == l1 + u1 + r1);
        assert(encoded_strings(s2) == l2 + u2 + r2);
        assert(c.take(8) == l1) by {
            assert(c.take(8) == encoded_strings(s1).take(8));
        }
        assert(c.take(8) == l2) by {
            assert(c.take(8) == encoded_strings(s2).take(8));
        }
        assert(spec_u64_from_le_bytes(l1) == spec_u64_from_le_bytes(l2));
        let n = u1.len() as int;
        assert(u2.len() == n);
        assert(u1 == c.subrange(8, 8 + n)) by {
            assert(u1 == encoded_strings(s1).subrange(8, 8 + n));
        }
        assert(u2 == c.subrange(8, 8 + n)) by {
            assert(u2 == encoded_strings(s2).subrange(8, 8 + n));
        }
        assert(s1[0] == s2[0]) by {
            assert(decode_utf8(u1) == decode_utf8(u2));
        }
        let rest = c.skip(8 + n);
        assert(rest.take(r1.len() as int) == r1) by {
            assert(r1 == encoded_strings(s1).skip(8 + n));
        }
        assert(rest.take(r2.len() as int) == r2) by {
            assert(r2 == encoded_strings(s2).skip(8 + n));
        }
        lemma_strings_unique(s1.skip(1), s2.skip(1), rest);
        assert(s1 == seq![s1[0]] + s1.skip(1));
        assert(s2 == seq![s2[0]] + s2.skip(1));
    }
}

/// At most one sequence of strings has an encoded form that begins `b`.
pub proof fn lemma_encoded_names_unique(s1: Seq<Seq<char>>, s2: Seq<Seq<char>>, b: Seq<u8>)
    requires
        b.len() <= u64::MAX,
        is_prefix(encoded_names(s1), b),
        is_prefix(encoded_names(s2), b),
    ensures
        s1 == s2,
{
    lemma_auto_spec_u64_to_from_le_bytes();
    lemma_encoded_strings_len(s1);
    lemma_encoded_strings_len(s2);
    let l1 = spec_u64_to_le_bytes(s1.len() as u64);
    let l2 = spec_u64_to_le_bytes(s2.len() as u64);
    assert(b.take(8) == l1) by {
        assert(b.take(8) == encoded_names(s1).take(8));
    }
    assert(b.take(8) == l2) by {
        assert(b.take(8) == encoded_names(s2).take(8));
    }
    assert(spec_u64_from_le_bytes(l1) == spec_u64_from_le_bytes(l2));
    assert(s1.len() == s2.len());
    let c = b.skip(8);
    assert(c.take(encoded_strings(s1).len() as int) == encoded_strings(s1)) by {
        assert(encoded_strings(s1) == encoded_names(s1).skip(8));
    }
    assert(c.take(encoded_strings(s2).len() as int) == encoded_strings(s2)) by {
        assert(encoded_strings(s2) == encoded_names(s2).skip(8));
    }
    lemma_strings_unique(s1, s2, c);
}

/// Bytes that begin with the encoded form of `s` decode to `s`.
pub proof fn lemma_decode_prefix(s: Seq<Seq<char>>, b: Seq<u8>)
    requires
        b.len() <= u64::MAX,
        is_prefix(encoded_names(s), b),
    ensures
        decoded_names(b) == Some(s),
{
    let t = choose|t: Seq<Seq<char>>| is_prefix(encoded_names(t), b);
    lemma_encoded_names_unique(s, t, b);
}

/// Relies on `bincode::serialize` (fixed-width integers, little endian, no
/// size limit): a vector of strings always encodes, into its encoded form.
#[verifier::external_body]
fn serialize_names(v: &Vec<String>) -> (r: Result<Vec<u8>, bincode::Error>)
    ensures
        r is Ok,
        r is Ok ==> r->Ok_0@ == encoded_names(names_of(v@)),
{
    bincode::serialize(v)
}

/// Relies on `bincode::deserialize`: it reads the vector of strings whose
/// encoded form begins `b`, ignoring any bytes after it, and fails when no
/// such vector exists.
#[verifier::external_body]
fn deserialize_names(b: &[u8]) -> (r: Result<Vec<String>, bincode::Error>)
    ensures
        match r {
            Ok(v) => is_prefix(encoded_names(names_of(v@)), b@),
            Err(_) => decoded_names(b@) is None,
        },
{
    bincode::deserialize(b)
}

/// The names that bytes `b` hold for a store of capacity `k`: what they
/// decode to, when that is a valid store content.
pub open spec fn stored_names(b: Seq<u8>, k: nat) -> Option<Seq<Seq<char>>> {
    match decoded_names(b) {
        Some(s) => if valid_names(s, k) {
            Some(s)
        } else {
            None
        },
        None => None,
    }
}

impl RecencyStore {
    /// The most names this store keeps.
    pub closed spec fn cap(&self) -> nat {
        self.capacity as nat
    }

    /// The store holds no repeated name and no more names than its capacity.
    pub open spec fn wf(&self) -> bool {
        valid_names(self@, self.cap())
    }

    /// An empty store that keeps at most `capacity` names.
    pub fn with_capacity(capacity: usize) -> (r: RecencyStore)
        ensures
            r@ == Seq::<Seq<char>>::empty(),
            r.cap() == capacity,
            r.wf(),
    {
        let r = RecencyStore { names: Vec::new(), capacity };
        assert(r@ == Seq::<Seq<char>>::empty());
        r
    }

    /// An empty store with the default capacity.
    pub fn new() -> (r: RecencyStore)
        ensures
            r@ == Seq::<Seq<char>>::empty(),
            r.cap() == DEFAULT_CAPACITY,
            r.wf(),
    {
        RecencyStore::with_capacity(DEFAULT_CAPACITY)
    }

    /// The number of names held.
    pub fn len(&self) -> (r: usize)
        ensures
            r == self@.len(),
    {
        self.names.len()
    }

    /// The most names this store keeps.
    pub fn capacity(&self) -> (r: usize)
        ensures
            r == self.cap(),
    {
        self.capacity
    }

    /// The name at position `i`, most recent first.
    pub fn get(&self, i: usize) -> (r: &str)
        requires
            i < self@.len(),
        ensures
            r@ == self@[i as int],
    {
        self.names[i].as_str()
    }

    /// The store's names in their persisted form. Reading them back with the
    /// same capacity gives this store's names again.
    pub fn to_bytes(&self) -> (r: Result<Vec<u8>, CacheError>)
        ensures
            r is Ok,
            r is Ok ==> r->Ok_0@ == encoded_names(self@),
            r is Ok && self.wf() ==> stored_names(r->Ok_0@, self.cap()) == Some(self@),
    {
        match serialize_names(&self.names) {
            Ok(b) => {
                let _ = b.len();
                proof {
                    lemma_decode_prefix(self@, b@);
                }
                Ok(b)
            },
            Err(_) => Err(CacheError::Encode),
        }
    }

    /// A store of capacity `capacity` that holds `names`, most recent first,
    /// when they hold no repeat and no more than `capacity` names.
    pub fn from_names(names: Vec<String>, capacity: usize) -> (r: Result<RecencyStore, CacheError>)
        ensures
            match r {
                Ok(st) => st@ == names_of(names@) && st.cap() == capacity && st.wf(),
                Err(e) => e == CacheError::Invalid && !valid_names(names_of(names@), capacity as nat),
            },
    {
        let ghost s = names_of(names@);
        if names.len() > capacity {
            return Err(CacheError::Invalid);
        }
        let mut i: usize = 0;
        while i < names.len()
            invariant
                i <= names.len(),
                s == names_of(names@),
                forall|a: int, b: int| 0 <= a < b < s.len() && a < i ==> s[a] != s[b],
            decreases names.len() - i,
        {
            let mut j: usize = i + 1;
            while j < names.len()
                invariant
                    i < j <= names.len(),
                    s == names_of(names@),
                    forall|a: int, b: int| 0 <= a < b < s.len() && a < i ==> s[a] != s[b],
                    forall|b: int| i < b < j ==> s[i as int] != s[b],
                decreases names.len() - j,
            {
                if names[i] == names[j] {
                    assert(s[i as int] == s[j as int]);
                    return Err(CacheError::Invalid);
                }
                j = j + 1;
            }
            i = i + 1;
        }
        Ok(RecencyStore { names, capacity })
    }

    /// Reads a store of capacity `capacity` from its persisted form.
    pub fn from_bytes(b: &[u8], capacity: usize) -> (r: Result<RecencyStore, CacheError>)
        ensures
            match r {
                Ok(st) => stored_names(b@, capacity as nat) == Some(st@) && st.cap() == capacity
                    && st.wf(),
                Err(e) => stored_names(b@, capacity as nat) is None && (e == CacheError::Decode
                    <==> decoded_names(b@) is None),
            },
    {
        let _ = b.len();
        match deserialize_names(b) {
            Ok(v) => {
                proof {
                    lemma_decode_prefix(names_of(v@), b@);
                }
                RecencyStore::from_names(v, capacity)
            },
            Err(_) => Err(CacheError::Decode),
        }
    }

    /// The store kept in `bytes`, or an empty one when there are none or
    /// they do not hold a valid store.
    pub fn load_or_empty(bytes: Option<&[u8]>, capacity: usize) -> (r: RecencyStore)
        ensures
            r.cap() == capacity,
            r.wf(),
            r@ == match bytes {
                Some(b) => match stored_names(b@, capacity as nat) {
                    Some(s) => s,
                    None => Seq::empty(),
                },
                None => Seq::empty(),
            },
    {
        match bytes {
            Some(b) => match RecencyStore::from_bytes(b, capacity) {
                Ok(st) => st,
                Err(_) => RecencyStore::with_capacity(capacity),
            },
            None => RecencyStore::with_capacity(capacity),
        }
    }

    /// Records a launch of `id`: it moves to the front, any earlier
    /// occurrence goes, and the oldest name leaves when the store is over
    /// its capacity.
    pub fn record(&mut self, id: &str)
        requires
            old(self).wf(),
        ensures
            final(self)@ == after_launch(old(self)@, id@, old(self).cap()),
            final(self).cap() == old(self).cap(),
            final(self).wf(),
    {
        let key = id.to_owned();
        let ghost s = self@;
        let mut i: usize = 0;
        let mut found = false;
        while i < self.names.len() && !found
            invariant
                i <= self.names.len(),
                self@ == s,
                found ==> i < s.len() && s[i as int] == key@,
                forall|j: int| 0 <= j < i ==> s[j] != key@,
            decreases self.names.len() - i + (if found { 0int } else { 1int }),
        {
            if self.names[i] == key {
                found = true;
            } else {
                i = i + 1;
            }
        }
        proof {
            if found {
                lemma_without_at(s, i as int);
            } else {
                lemma_without_absent(s, key@);
            }
            lemma_without_no_duplicates(s, key@);
        }
        if found {
            self.names.remove(i);
            assert(self@ == s.remove(i as int));
        }
        assert(self@ == without(s, key@));
        self.names.insert(0, key);
        assert(self@ == seq![id@] + without(s, id@));
        proof {
            let t = seq![id@] + without(s, id@);
            assert forall|a: int, b: int| 0 <= a < b < t.len() implies t[a] != t[b] by {
                if a == 0 {
                    assert(without(s, id@).contains(t[b]));
                }
            }
        }
        let ghost t = self@;
        if self.names.len() > self.capacity {
            self.names.truncate(self.capacity);
            assert(self@ == t.take(self.capacity as int));
            assert forall|a: int, b: int| 0 <= a < b < self@.len() implies self@[a] != self@[b] by {
                assert(self@[a] == t[a] && self@[b] == t[b]);
            }
        }
    }
}

} // verus!
