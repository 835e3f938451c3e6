//! Bytes: prefixes, the order of byte strings, paths, and a reader over bytes
//! in memory.

use vstd::prelude::*;
use vstd::slice::slice_subrange;

use crate::text::{next_index, pieces};

verus! {

/// Whether `bytes` starts with `head`.
pub fn starts_with(bytes: &[u8], head: &[u8]) -> (r: bool)
    ensures
        r == head@.is_prefix_of(bytes@),
{
    if bytes.len() < head.len() {
        return false;
    }
    let mut i: usize = 0;
    while i < head.len()
        invariant
            i <= head@.len() <= bytes@.len(),
            forall|k: int| 0 <= k < i ==> bytes@[k] == head@[k],
        decreases head@.len() - i,
    {
        if bytes[i] != head[i] {
            assert(bytes@.subrange(0, head@.len() as int)[i as int] != head@[i as int]);
            return false;
        }
        i += 1;
    }
    assert(head@ =~= bytes@.subrange(0, head@.len() as int));
    true
}

/// Whether two byte strings are equal.
pub fn same_bytes(a: &[u8], b: &[u8]) -> (r: bool)
    ensures
        r == (a@ == b@),
{
    if a.len() != b.len() {
        return false;
    }
    let r = starts_with(a, b);
    proof {
        assert(a@.subrange(0, b@.len() as int) =~= a@);
    }
    r
}

/// A copy of a byte string.
pub fn copy_bytes(bytes: &[u8]) -> (r: Vec<u8>)
    ensures
        r@ == bytes@,
{
    let mut out: Vec<u8> = Vec::new();
    out.extend_from_slice(bytes);
    assert(out@ =~= bytes@);
    out
}

/// Reads bytes from memory, from front to back. Its view is what is left.
pub struct ByteReader {
    bytes: Vec<u8>,
    pos: usize,
}

impl View for ByteReader {
    type V = Seq<u8>;

    closed spec fn view(&self) -> Seq<u8> {
        self.bytes@.subrange(self.pos as int, self.bytes@.len() as int)
    }
}

impl ByteReader {
    #[verifier::type_invariant]
    spec fn well_formed(self) -> bool {
        self.pos <= self.bytes@.len()
    }

    /// A reader at the front of `bytes`.
    pub fn new(bytes: Vec<u8>) -> (r: Self)
        ensures
            r@ == bytes@,
    {
        let r = ByteReader { bytes, pos: 0 };
        assert(r@ =~= bytes@);
        r
    }

    /// Whether nothing is left.
    pub fn is_empty(&self) -> (r: bool)
        ensures
            r == (self@.len() == 0),
    {
        proof {
            use_type_invariant(self);
        }
        self.pos == self.bytes.len()
    }

    /// Reads exactly `n` bytes, or ends the reader where fewer are left.
    pub fn read_exact(&mut self, n: usize) -> (r: Option<Vec<u8>>)
        ensures
            match r {
                Some(taken) => n <= old(self)@.len() && taken@ == old(self)@.take(n as int)
                    && final(self)@ == old(self)@.skip(n as int),
                None => n > old(self)@.len() && final(self)@ == Seq::<u8>::empty(),
            },
    {
        proof {
            use_type_invariant(&*self);
        }
        let len: usize = self.bytes.len();
        if len - self.pos < n {
            self.pos = len;
            assert(self@ =~= Seq::<u8>::empty());
            return None;
        }
        let taken = copy_bytes(slice_subrange(self.bytes.as_slice(), self.pos, self.pos + n));
        assert(taken@ =~= self@.take(n as int));
        let ghost before = self@;
        self.pos = self.pos + n;
        assert(self@ =~= before.skip(n as int));
        Some(taken)
    }

    /// What is left.
    pub fn rest(&self) -> (r: Vec<u8>)
        ensures
            r@ == self@,
    {
        proof {
            use_type_invariant(self);
        }
        copy_bytes(slice_subrange(self.bytes.as_slice(), self.pos, self.bytes.len()))
    }
}

/// The path of `name` in the directory `base`. An absolute `name` stands for
/// itself.
pub open spec fn joined(base: Seq<u8>, name: Seq<u8>) -> Seq<u8> {
    if base.len() == 0 || (name.len() > 0 && name[0] == 47) {
        name
    } else if base.last() == 47 {
        base + name
    } else {
        base.push(47) + name
    }
}

/// The path of `name` in the directory `base`.
pub fn join_path(base: &[u8], name: &[u8]) -> (r: Vec<u8>)
    ensures
        r@ == joined(base@, name@),
{
    if base.len() == 0 || (name.len() > 0 && name[0] == 47) {
        return copy_bytes(name);
    }
    let mut out = copy_bytes(base);
    if base[base.len() - 1] != 47 {
        out.push(47);
    }
    out.extend_from_slice(name);
    assert(out@ =~= joined(base@, name@));
    out
}

/// Whether `a` comes before `b` byte by byte, a prefix before what it is a
/// prefix of.
pub open spec fn before(a: Seq<u8>, b: Seq<u8>) -> bool
    decreases a.len(),
{
    if b.len() == 0 {
        false
    } else if a.len() == 0 {
        true
    } else if a[0] != b[0] {
        a[0] < b[0]
    } else {
        before(a.skip(1), b.skip(1))
    }
}

proof fn lemma_before_at(a: Seq<u8>, b: Seq<u8>, i: int)
    requires
        0 <= i <= a.len(),
        i <= b.len(),
        forall|k: int| 0 <= k < i ==> a[k] == b[k],
    ensures
        before(a, b) == before(a.skip(i), b.skip(i)),
    decreases i,
{
    if i == 0 {
        assert(a.skip(0) =~= a);
        assert(b.skip(0) =~= b);
    } else {
        assert(a[0] == b[0]);
        lemma_before_at(a.skip(1), b.skip(1), i - 1);
        assert(a.skip(1).skip(i - 1) =~= a.skip(i));
        assert(b.skip(1).skip(i - 1) =~= b.skip(i));
    }
}

/// The order of byte strings is a strict total order.
pub proof fn lemma_before_is_total(a: Seq<u8>, b: Seq<u8>)
    ensures
        before(a, b) || before(b, a) || a == b,
        !(before(a, b) && before(b, a)),
        !before(a, a),
    decreases a.len(),
{
    if a.len() > 0 && b.len() > 0 {
        lemma_before_is_total(a.skip(1), b.skip(1));
        if a[0] == b[0] && a.skip(1) == b.skip(1) {
            assert(a =~= seq![a[0]] + a.skip(1));
            assert(b =~= seq![b[0]] + b.skip(1));
        }
    } else if a.len() == 0 && b.len() == 0 {
        assert(a =~= b);
    }
    if a.len() > 0 {
        lemma_before_is_total(a.skip(1), a.skip(1));
    }
}

/// The order of byte strings is transitive.
pub proof fn lemma_before_is_transitive(a: Seq<u8>, b: Seq<u8>, c: Seq<u8>)
    requires
        before(a, b),
        before(b, c),
    ensures
        before(a, c),
    decreases a.len(),
{
    if a.len() > 0 && a[0] == b[0] && b[0] == c[0] {
        lemma_before_is_transitive(a.skip(1), b.skip(1), c.skip(1));
    }
}

/// Whether `a` comes before `b`.
pub fn is_before(a: &[u8], b: &[u8]) -> (r: bool)
    ensures
        r == before(a@, b@),
{
    let mut i: usize = 0;
    while i < a.len() && i < b.len()
        invariant
            i <= a@.len(),
            i <= b@.len(),
            forall|k: int| 0 <= k < i ==> a@[k] == b@[k],
        decreases a@.len() - i,
    {
        if a[i] != b[i] {
            proof {
                lemma_before_at(a@, b@, i as int);
            }
            return a[i] < b[i];
        }
        i += 1;
    }
    proof {
        lemma_before_at(a@, b@, i as int);
    }
    i < b.len()
}

/// The byte strings of a list.
pub open spec fn rows(v: Seq<Vec<u8>>) -> Seq<Seq<u8>> {
    Seq::new(v.len(), |i: int| v[i]@)
}

/// Whether each byte string of a list comes before those behind it.
pub open spec fn ascending(v: Seq<Seq<u8>>) -> bool {
    forall|i: int, j: int| 0 <= i < j < v.len() ==> before(#[trigger] v[i], #[trigger] v[j])
}

/// Puts `row` in its place in an ascending list, unless it is there.
pub fn insert_row(v: &mut Vec<Vec<u8>>, row: &[u8])
    requires
        ascending(rows(old(v)@)),
    ensures
        ascending(rows(final(v)@)),
        forall|x: Seq<u8>|
            rows(final(v)@).contains(x) <==> (rows(old(v)@).contains(x) || x == row@),
{
    let ghost was = rows(v@);
    let mut i: usize = v.len();
    while i > 0 && is_before(row, v[i - 1].as_slice())
        invariant
            i <= v@.len(),
            was == rows(v@),
            forall|k: int| i <= k < v@.len() ==> before(row@, #[trigger] was[k]),
        decreases i,
    {
        i -= 1;
    }
    if i > 0 && same_bytes(v[i - 1].as_slice(), row) {
        assert(was[i - 1] == row@);
        return ;
    }
    proof {
        assert forall|k: int| 0 <= k < i implies before(#[trigger] was[k], row@) by {
            lemma_before_is_total(row@, was[i - 1]);
            if k < i - 1 {
                lemma_before_is_transitive(was[k], was[i - 1], row@);
            }
        }
    }
    v.insert(i, copy_bytes(row));
    proof {
        let now = rows(v@);
        assert(now =~= was.insert(i as int, row@));
        assert forall|a: int, b: int| 0 <= a < b < now.len() implies before(
            #[trigger] now[a],
            #[trigger] now[b],
        ) by {
            if a < i && b > i {
                assert(now[a] == was[a] && now[b] == was[b - 1]);
            } else if b < i {
                assert(now[a] == was[a] && now[b] == was[b]);
            } else if a > i {
                assert(now[a] == was[a - 1] && now[b] == was[b - 1]);
            } else if a == i {
                assert(now[b] == was[b - 1]);
            } else {
                assert(now[a] == was[a]);
            }
        }
        assert forall|x: Seq<u8>| now.contains(x) <==> (was.contains(x) || x == row@) by {
            if now.contains(x) {
                let k = choose|k: int| 0 <= k < now.len() && now[k] == x;
                if k < i {
                    assert(was[k] == x);
                } else if k > i {
                    assert(was[k - 1] == x);
                }
            }
            if was.contains(x) {
                let k = choose|k: int| 0 <= k < was.len() && was[k] == x;
                if k < i {
                    assert(now[k] == x);
                } else {
                    assert(now[k + 1] == x);
                }
            }
            if x == row@ {
                assert(now[i as int] == x);
            }
        }
    }
}

/// The byte strings of a list, each once and in order.
pub fn sorted_rows(v: &Vec<Vec<u8>>) -> (r: Vec<Vec<u8>>)
    ensures
        ascending(rows(r@)),
        forall|x: Seq<u8>| rows(r@).contains(x) <==> rows(v@).contains(x),
{
    let mut out: Vec<Vec<u8>> = Vec::new();
    let mut i: usize = 0;
    while i < v.len()
        invariant
            i <= v@.len(),
            ascending(rows(out@)),
            forall|x: Seq<u8>|
                rows(out@).contains(x) <==> (exists|k: int| 0 <= k < i && #[trigger] v@[k]@ == x),
        decreases v@.len() - i,
    {
        insert_row(&mut out, v[i].as_slice());
        proof {
            assert forall|x: Seq<u8>|
                rows(out@).contains(x) <==> (exists|k: int|
                    0 <= k < i + 1 && #[trigger] v@[k]@ == x) by {
                if x == v@[i as int]@ {
                    assert(v@[i as int]@ == x);
                }
            }
        }
        i += 1;
    }
    proof {
        assert forall|x: Seq<u8>| rows(out@).contains(x) <==> rows(v@).contains(x) by {
            if rows(v@).contains(x) {
                let k = choose|k: int| 0 <= k < rows(v@).len() && rows(v@)[k] == x;
                assert(v@[k]@ == x);
            }
            if rows(out@).contains(x) {
                let k = choose|k: int| 0 <= k < v@.len() && #[trigger] v@[k]@ == x;
                assert(rows(v@)[k] == x);
            }
        }
    }
    out
}

/// Where the first `b` stands, or the length if it stands nowhere.
pub fn index_of_byte(bytes: &[u8], b: u8) -> (r: usize)
    ensures
        r == next_index(bytes@, b, 0),
        r <= bytes@.len(),
        r < bytes@.len() ==> bytes@[r as int] == b,
        forall|k: int| 0 <= k < r ==> bytes@[k] != b,
{
    let mut i: usize = 0;
    while i < bytes.len() && bytes[i] != b
        invariant
            i <= bytes@.len(),
            next_index(bytes@, b, i as int) == next_index(bytes@, b, 0),
            forall|k: int| 0 <= k < i ==> bytes@[k] != b,
        decreases bytes@.len() - i,
    {
        i += 1;
    }
    i
}

proof fn lemma_rows_push(v: Seq<Vec<u8>>, row: Vec<u8>)
    ensures
        rows(v.push(row)) == rows(v).push(row@),
{
    assert(rows(v.push(row)) =~= rows(v).push(row@));
}

/// The pieces of `bytes` between the separators `b`.
pub fn split_bytes(bytes: &[u8], b: u8) -> (r: Vec<Vec<u8>>)
    ensures
        rows(r@) == pieces(bytes@, b),
{
    let mut out: Vec<Vec<u8>> = Vec::new();
    let mut rest = bytes;
    proof {
        assert(rows(out@) + pieces(rest@, b) =~= pieces(bytes@, b));
    }
    loop
        invariant_except_break
            rows(out@) + pieces(rest@, b) == pieces(bytes@, b),
        ensures
            rows(out@) == pieces(bytes@, b),
        decreases rest@.len(),
    {
        let i: usize = index_of_byte(rest, b);
        let piece = copy_bytes(slice_subrange(rest, 0, i));
        let ghost was = out@;
        proof {
            lemma_rows_push(was, piece);
        }
        if i >= rest.len() {
            proof {
                assert(piece@ =~= rest@);
                assert(rows(was) + seq![rest@] =~= rows(was).push(piece@));
            }
            out.push(piece);
            break;
        }
        proof {
            assert(rows(was).push(piece@) + pieces(rest@.subrange(i + 1, rest@.len() as int), b)
                =~= rows(was) + (seq![piece@] + pieces(
                rest@.subrange(i + 1, rest@.len() as int),
                b,
            )));
        }
        out.push(piece);
        rest = slice_subrange(rest, i + 1, rest.len());
    }
    out
}

/// The order of byte strings goes by the first byte in which they differ, and a
/// byte string comes before those that it is the start of.
pub proof fn law_bytes_are_ordered_by_their_first_difference(a: Seq<u8>, b: Seq<u8>, i: int)
    requires
        0 <= i <= a.len(),
        i <= b.len(),
        a.take(i) == b.take(i),
        i < a.len() && i < b.len() ==> a[i] != b[i],
    ensures
        before(a, b) <==> i < b.len() && (i == a.len() || a[i] < b[i]),
{
    assert forall|k: int| 0 <= k < i implies a[k] == b[k] by {
        assert(a.take(i)[k] == a[k]);
        assert(b.take(i)[k] == b[k]);
    }
    lemma_before_at(a, b, i);
    if i < a.len() {
        assert(a.skip(i)[0] == a[i]);
    }
    if i < b.len() {
        assert(b.skip(i)[0] == b[i]);
    }
}

/// A path ends in the name that was joined to it, and starts with the directory,
/// with one slash between them, unless the name is absolute or the directory
/// empty: then it is the name. A slash at the end of the directory changes
/// nothing.
pub proof fn law_a_joined_path_leads_from_its_directory(base: Seq<u8>, name: Seq<u8>)
    ensures
        name.is_suffix_of(joined(base, name)),
        name.len() > 0 && name[0] == 0x2f ==> joined(base, name) == name,
        joined(Seq::empty(), name) == name,
        base.len() > 0 && base.last() != 0x2f && (name.len() == 0 || name[0] != 0x2f) ==> {
            &&& joined(base, name).len() == base.len() + 1 + name.len()
            &&& base.is_prefix_of(joined(base, name))
            &&& joined(base, name)[base.len() as int] == 0x2f
            &&& joined(base.push(0x2f), name) == joined(base, name)
        },
{
    let path = joined(base, name);
    let n = path.len() - name.len();
    assert(path.subrange(n, path.len() as int) =~= name);
}

} // verus!
