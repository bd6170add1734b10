//! Lazy splitting of a borrowed string by a borrowed, non-empty delimiter.
//!
//! All offsets are byte offsets into the UTF-8 encoding of the source, and
//! the model of a string is its byte sequence (`spec_bytes`).
use vstd::prelude::*;
use vstd::string::*;
use vstd::utf8::*;

verus! {

broadcast use vstd::seq::group_seq_axioms;

/// `d` occurs in `h` starting at offset `i`.
pub open spec fn occurs_at(h: Seq<u8>, d: Seq<u8>, i: int) -> bool {
    0 <= i && i + d.len() <= h.len() && h.subrange(i, i + d.len()) == d
}

/// The offset reached from `i` by stepping over a run of back-to-back
/// occurrences of `d`: the first offset at or after `i` where `d` does not
/// start, or the end of `h` when the run reaches it.
pub open spec fn skip_run(h: Seq<u8>, d: Seq<u8>, i: int) -> int
    decreases h.len() - i,
{
    if d.len() > 0 && 0 <= i < h.len() && occurs_at(h, d, i) {
        skip_run(h, d, i + d.len())
    } else {
        i
    }
}

/// The first offset at or after `i` where `d` occurs in `h`, if any.
pub open spec fn find_from(h: Seq<u8>, d: Seq<u8>, i: int) -> Option<int>
    decreases h.len() - i,
{
    if 0 <= i < h.len() && i + d.len() <= h.len() {
        if occurs_at(h, d, i) {
            Some(i)
        } else {
            find_from(h, d, i + 1)
        }
    } else {
        None
    }
}

/// Tests whether `d` occurs in `h` at offset `i`, byte by byte.
fn occurs_at_exec(h: &[u8], d: &[u8], i: usize) -> (r: bool)
    ensures
        r == occurs_at(h@, d@, i as int),
{
    if i > h.len() || d.len() > h.len() - i {
        return false;
    }
    let n = h.len();
    let mut k: usize = 0;
    while k < d.len()
        invariant
            n == h@.len(),
            i + d@.len() <= h@.len(),
            k <= d@.len(),
            forall|t: int| 0 <= t < k ==> h@[i + t] == d@[t],
        decreases d@.len() - k,
    {
        if h[i + k] != d[k] {
            assert(h@.subrange(i as int, i + d@.len())[k as int] != d@[k as int]);
            return false;
        }
        k = k + 1;
    }
    assert(h@.subrange(i as int, i + d@.len()) =~= d@);
    true
}

/// The segments produced by splitting `h` by `d` from offset `i` on: skip a
/// run of back-to-back delimiters, stop if nothing is left, otherwise take
/// everything up to the next delimiter (or the end) as one segment and go on
/// just past that delimiter.
pub open spec fn segments_from(h: Seq<u8>, d: Seq<u8>, i: int) -> Seq<Seq<u8>>
    decreases h.len() - i,
    via segments_from_decreases
{
    if d.len() == 0 || i < 0 || i >= h.len() {
        seq![]
    } else {
        let q = skip_run(h, d, i);
        if q >= h.len() {
            seq![]
        } else {
            match find_from(h, d, q) {
                None => seq![h.subrange(q, h.len() as int)],
                Some(j) => seq![h.subrange(q, j)] + segments_from(h, d, j + d.len()),
            }
        }
    }
}

#[via_fn]
proof fn segments_from_decreases(h: Seq<u8>, d: Seq<u8>, i: int) {
    if d.len() > 0 && 0 <= i < h.len() {
        lemma_skip_run_bounds(h, d, i);
        let q = skip_run(h, d, i);
        if q < h.len() {
            lemma_find_from_bounds(h, d, q);
        }
    }
}

/// A run skip starting inside `h` ends inside `h`, at an offset where `d`
/// does not start (unless it is the end of `h`).
pub proof fn lemma_skip_run_bounds(h: Seq<u8>, d: Seq<u8>, i: int)
    requires
        d.len() > 0,
        0 <= i <= h.len(),
    ensures
        i <= skip_run(h, d, i) <= h.len(),
        skip_run(h, d, i) < h.len() ==> !occurs_at(h, d, skip_run(h, d, i)),
    decreases h.len() - i,
{
    if i < h.len() && occurs_at(h, d, i) {
        lemma_skip_run_bounds(h, d, i + d.len());
    }
}

/// A match found from `i` lies at or after `i`, and nothing before it matches.
pub proof fn lemma_find_from_bounds(h: Seq<u8>, d: Seq<u8>, i: int)
    requires
        d.len() > 0,
        0 <= i,
    ensures
        find_from(h, d, i) matches Some(j) ==> i <= j && occurs_at(h, d, j) && (forall|k: int|
            i <= k < j ==> !occurs_at(h, d, k)),
        find_from(h, d, i) is None ==> forall|k: int| i <= k ==> !occurs_at(h, d, k),
    decreases h.len() - i,
{
    if i < h.len() && i + d.len() <= h.len() && !occurs_at(h, d, i) {
        lemma_find_from_bounds(h, d, i + 1);
    }
}

/// If `d` occurs at offset `j` of a valid UTF-8 text `h`, both ends of that
/// occurrence are character boundaries of `h`.
proof fn lemma_occurrence_boundaries(h: Seq<u8>, d: Seq<u8>, j: int)
    requires
        valid_utf8(h),
        valid_utf8(d),
        d.len() > 0,
        occurs_at(h, d, j),
    ensures
        is_char_boundary(h, j),
        is_char_boundary(h, j + d.len()),
{
    assert(h[j] == h.subrange(j, j + d.len())[0]);
    is_char_boundary_iff_not_is_continuation_byte(d, 0);
    is_char_boundary_iff_not_is_continuation_byte(h, j);
    let x = h.subrange(j, h.len() as int);
    valid_utf8_split(h, j);
    assert(x.subrange(0, d.len() as int) =~= d);
    lemma_prefix_boundary(x, d);
    if j + d.len() < h.len() {
        is_char_boundary_iff_not_is_continuation_byte(x, d.len() as int);
        assert(x[d.len() as int] == h[j + d.len()]);
        is_char_boundary_iff_not_is_continuation_byte(h, j + d.len());
    } else {
        is_char_boundary_start_end_of_seq(h);
    }
}

/// A valid UTF-8 prefix of a valid UTF-8 text ends on a character boundary.
proof fn lemma_prefix_boundary(x: Seq<u8>, d: Seq<u8>)
    requires
        valid_utf8(x),
        valid_utf8(d),
        d.len() <= x.len(),
        x.subrange(0, d.len() as int) == d,
    ensures
        is_char_boundary(x, d.len() as int),
    decreases d.len(),
{
    if d.len() > 0 {
        assert(x[0] == d[0]);
        let n = length_of_first_scalar(d);
        let xt = pop_first_scalar(x);
        let dt = pop_first_scalar(d);
        assert(xt.subrange(0, dt.len() as int) =~= dt);
        lemma_prefix_boundary(xt, dt);
    }
}

/// Steps over the run of back-to-back occurrences of `d` that starts at
/// `start`, returning the offset where the run ends.
fn skip_run_at(h: &[u8], d: &[u8], start: usize) -> (r: usize)
    requires
        d@.len() > 0,
        start <= h@.len(),
    ensures
        r == skip_run(h@, d@, start as int),
{
    let mut p: usize = start;
    while p < h.len()
        invariant
            d@.len() > 0,
            p <= h@.len(),
            skip_run(h@, d@, start as int) == skip_run(h@, d@, p as int),
        decreases h@.len() - p,
    {
        if occurs_at_exec(h, d, p) {
            p = p + d.len();
        } else {
            return p;
        }
    }
    p
}

/// Searches for the first occurrence of `d` in `h` at or after `start`.
fn find_at(h: &[u8], d: &[u8], start: usize) -> (r: Option<usize>)
    requires
        d@.len() > 0,
        start <= h@.len(),
    ensures
        r is Some <==> find_from(h@, d@, start as int) is Some,
        r matches Some(j) ==> find_from(h@, d@, start as int) == Some(j as int),
{
    let mut j: usize = start;
    while d.len() <= h.len() - j
        invariant
            d@.len() > 0,
            j <= h@.len(),
            find_from(h@, d@, start as int) == find_from(h@, d@, j as int),
        decreases h@.len() - j,
    {
        if occurs_at_exec(h, d, j) {
            return Some(j);
        }
        j = j + 1;
    }
    None
}

/// Offset of the first byte of `haystack` past its leading run of
/// back-to-back `delim`s; `None` when that run covers all of `haystack`
/// (an empty `haystack` included).
pub fn skip_delims_prefix(haystack: &str, delim: &str) -> (r: Option<usize>)
    requires
        delim@.len() > 0,
    ensures
        r matches Some(n) ==> n == skip_run(haystack.spec_bytes(), delim.spec_bytes(), 0) && n
            < haystack.spec_bytes().len(),
        r is None ==> skip_run(haystack.spec_bytes(), delim.spec_bytes(), 0)
            >= haystack.spec_bytes().len(),
{
    let h = haystack.as_bytes();
    let d = delim.as_bytes();
    proof {
        lemma_encode_nonempty(delim@);
    }
    let p = skip_run_at(h, d, 0);
    if p < h.len() {
        Some(p)
    } else {
        None
    }
}

/// A lazy sequence of the segments of `haystack` separated by `delimiter`.
///
/// The two strings are borrowed for independent lifetimes; only the
/// segments, which point into `haystack`, carry the first one.
pub struct StrSplit<'a, 'b> {
    haystack: &'a str,
    delimiter: &'b str,
    pos: usize,
}

impl<'a, 'b> StrSplit<'a, 'b> {
    /// The bytes being split.
    pub closed spec fn source(&self) -> Seq<u8> {
        self.haystack.spec_bytes()
    }

    /// The bytes of the delimiter.
    pub closed spec fn separator(&self) -> Seq<u8> {
        self.delimiter.spec_bytes()
    }

    /// The cursor: the byte offset from which the next segment is sought.
    pub closed spec fn position(&self) -> int {
        self.pos as int
    }

    /// The delimiter is non-empty, and the cursor stays inside the source, on
    /// a character boundary.
    #[verifier::type_invariant]
    closed spec fn inv(&self) -> bool {
        &&& self.delimiter.spec_bytes().len() > 0
        &&& self.pos <= self.haystack.spec_bytes().len()
        &&& is_char_boundary(self.haystack.spec_bytes(), self.pos as int)
    }

    /// Starts splitting `haystack` by `delimiter`, with the cursor at offset 0.
    pub fn new(haystack: &'a str, delimiter: &'b str) -> (r: Self)
        requires
            delimiter@.len() > 0,
        ensures
            r.source() == haystack.spec_bytes(),
            r.separator() == delimiter.spec_bytes(),
            r.position() == 0,
            r@ == segments_from(haystack.spec_bytes(), delimiter.spec_bytes(), 0),
    {
        proof {
            lemma_encode_nonempty(delimiter@);
            encode_utf8_valid_utf8(haystack@);
        }
        StrSplit { haystack, delimiter, pos: 0 }
    }

    /// Produces the next segment, or `None` once every segment has been
    /// produced.
    pub fn next(&mut self) -> (r: Option<&'a str>)
        ensures
            final(self).source() == old(self).source(),
            final(self).separator() == old(self).separator(),
            old(self).position() <= final(self).position() <= final(self).source().len(),
            match r {
                None => old(self)@.len() == 0 && final(self)@.len() == 0,
                Some(seg) => {
                    &&& old(self)@.len() > 0
                    &&& seg.spec_bytes() == old(self)@[0]
                    &&& final(self)@ == old(self)@.drop_first()
                },
            },
    {
        proof {
            use_type_invariant(&*self);
        }
        let hay: &'a str = self.haystack;
        let h = hay.as_bytes();
        let d = self.delimiter.as_bytes();
        let ghost hs = h@;
        let ghost ds = d@;
        proof {
            encode_utf8_valid_utf8(hay@);
            encode_utf8_valid_utf8(self.delimiter@);
        }
        if self.pos >= h.len() {
            return None;
        }
        let q = skip_run_at(h, d, self.pos);
        proof {
            lemma_skip_run_bounds(hs, ds, self.pos as int);
            lemma_skip_run_boundary(hs, ds, self.pos as int);
        }
        if q >= h.len() {
            proof {
                is_char_boundary_start_end_of_seq(hs);
            }
            self.pos = h.len();
            return None;
        }
        let rest = hay.split_at(q).1;
        proof {
            lemma_find_from_bounds(hs, ds, q as int);
        }
        match find_at(h, d, q) {
            None => {
                proof {
                    is_char_boundary_start_end_of_seq(hs);
                }
                self.pos = h.len();
                Some(rest)
            },
            Some(j) => {
                proof {
                    lemma_occurrence_boundaries(hs, ds, j as int);
                    let rs = rest.spec_bytes();
                    encode_utf8_valid_utf8(rest@);
                    is_char_boundary_iff_not_is_continuation_byte(hs, j as int);
                    assert(rs[j - q] == hs[j as int]);
                    is_char_boundary_iff_not_is_continuation_byte(rs, j - q);
                }
                let seg = rest.split_at(j - q).0;
                self.pos = j + d.len();
                Some(seg)
            },
        }
    }

    /// Drains every remaining segment, in order.
    pub fn collect(self) -> (v: Vec<&'a str>)
        ensures
            v@.len() == self@.len(),
            forall|i: int| 0 <= i < v@.len() ==> #[trigger] v@[i].spec_bytes() == self@[i],
    {
        let mut rest = self;
        let mut v: Vec<&'a str> = Vec::new();
        loop
            invariant
                v@.len() + rest@.len() == self@.len(),
                forall|i: int| 0 <= i < v@.len() ==> #[trigger] v@[i].spec_bytes() == self@[i],
                forall|i: int| 0 <= i < rest@.len() ==> #[trigger] rest@[i] == self@[v@.len() + i],
            ensures
                rest@.len() == 0,
            decreases rest@.len(),
        {
            match rest.next() {
                None => break,
                Some(seg) => v.push(seg),
            }
        }
        v
    }
}

impl<'a, 'b> View for StrSplit<'a, 'b> {
    type V = Seq<Seq<u8>>;

    /// The segments still to come.
    closed spec fn view(&self) -> Seq<Seq<u8>> {
        segments_from(self.source(), self.separator(), self.position())
    }
}

/// Skipping a run from a character boundary of a valid UTF-8 text ends on a
/// character boundary.
proof fn lemma_skip_run_boundary(h: Seq<u8>, d: Seq<u8>, i: int)
    requires
        valid_utf8(h),
        valid_utf8(d),
        d.len() > 0,
        0 <= i <= h.len(),
        is_char_boundary(h, i),
    ensures
        is_char_boundary(h, skip_run(h, d, i)),
    decreases h.len() - i,
{
    if i < h.len() && occurs_at(h, d, i) {
        lemma_occurrence_boundaries(h, d, i);
        lemma_skip_run_boundary(h, d, i + d.len());
    }
}

/// The parts laid end to end with `d` between each two of them.
pub open spec fn join(parts: Seq<Seq<u8>>, d: Seq<u8>) -> Seq<u8>
    decreases parts.len(),
{
    if parts.len() == 0 {
        seq![]
    } else if parts.len() == 1 {
        parts[0]
    } else {
        parts[0] + d + join(parts.drop_first(), d)
    }
}

/// `parts` joined by `d` has each `d` standing alone between two parts: there
/// is at least one part, no part is empty, and no occurrence of `d` in the
/// joined text starts inside a part.
pub open spec fn cleanly_joined(parts: Seq<Seq<u8>>, d: Seq<u8>) -> bool
    decreases parts.len(),
{
    &&& parts.len() > 0
    &&& parts[0].len() > 0
    &&& forall|k: int| 0 <= k < parts[0].len() ==> !occurs_at(join(parts, d), d, k)
    &&& parts.len() > 1 ==> cleanly_joined(parts.drop_first(), d)
}

/// `d` repeated `n` times.
pub open spec fn repeat(d: Seq<u8>, n: nat) -> Seq<u8>
    decreases n,
{
    if n == 0 {
        seq![]
    } else {
        d + repeat(d, (n - 1) as nat)
    }
}

/// Splitting loses nothing where each delimiter stands alone between two
/// non-empty parts: splitting such a text gives back exactly its parts, and
/// joining the segments with the delimiter gives back the text.
pub proof fn lemma_split_of_join(s: Seq<u8>, d: Seq<u8>, parts: Seq<Seq<u8>>)
    requires
        d.len() > 0,
        s == join(parts, d),
        cleanly_joined(parts, d),
    ensures
        segments_from(s, d, 0) == parts,
        join(segments_from(s, d, 0), d) == s,
    decreases parts.len(),
{
    let p0 = parts[0];
    assert(!occurs_at(s, d, 0));
    if parts.len() == 1 {
        lemma_find_from_bounds(s, d, 0);
        assert(s.subrange(0, s.len() as int) =~= s);
    } else {
        let rest = parts.drop_first();
        let a = p0 + d;
        assert(s == a + join(rest, d));
        assert(s.subrange(p0.len() as int, (p0.len() + d.len()) as int) =~= d);
        lemma_find_from_first(s, d, 0, p0.len() as int);
        assert(s.subrange(0, p0.len() as int) =~= p0);
        lemma_segments_shift(a, join(rest, d), d, 0);
        lemma_split_of_join(join(rest, d), d, rest);
        assert(parts =~= seq![p0] + rest);
    }
}

/// An empty source has no segments, whatever the delimiter.
pub proof fn lemma_empty_source(d: Seq<u8>)
    requires
        d.len() > 0,
    ensures
        segments_from(seq![], d, 0) == Seq::<Seq<u8>>::empty(),
{
}

/// A source made only of repeats of the delimiter has no segments.
pub proof fn lemma_only_delimiters(d: Seq<u8>, n: nat)
    requires
        d.len() > 0,
    ensures
        segments_from(repeat(d, n), d, 0) == Seq::<Seq<u8>>::empty(),
{
    lemma_skip_run_repeat(d, n);
}

proof fn lemma_skip_run_repeat(d: Seq<u8>, n: nat)
    requires
        d.len() > 0,
    ensures
        skip_run(repeat(d, n), d, 0) == repeat(d, n).len(),
    decreases n,
{
    if n > 0 {
        let r = repeat(d, (n - 1) as nat);
        let h = repeat(d, n);
        assert(h == d + r);
        assert(h.subrange(0, d.len() as int) =~= d);
        lemma_skip_run_repeat(d, (n - 1) as nat);
        lemma_skip_run_shift(d, r, d, 0);
    }
}

/// The first occurrence at or after `i` is the one at `j` when nothing
/// between `i` and `j` matches.
proof fn lemma_find_from_first(h: Seq<u8>, d: Seq<u8>, i: int, j: int)
    requires
        d.len() > 0,
        0 <= i <= j,
        occurs_at(h, d, j),
        forall|k: int| i <= k < j ==> !occurs_at(h, d, k),
    ensures
        find_from(h, d, i) == Some(j),
    decreases j - i,
{
    if i < j {
        lemma_find_from_first(h, d, i + 1, j);
    }
}

/// Whether `d` occurs at an offset of `r` does not change when `r` is put
/// behind a prefix `a`.
proof fn lemma_occurs_shift(a: Seq<u8>, r: Seq<u8>, d: Seq<u8>, i: int)
    requires
        0 <= i,
    ensures
        occurs_at(a + r, d, a.len() + i) == occurs_at(r, d, i),
{
    if i + d.len() <= r.len() {
        assert((a + r).subrange(a.len() + i, a.len() + i + d.len()) =~= r.subrange(
            i,
            i + d.len(),
        ));
    }
}

proof fn lemma_skip_run_shift(a: Seq<u8>, r: Seq<u8>, d: Seq<u8>, i: int)
    requires
        d.len() > 0,
        0 <= i <= r.len(),
    ensures
        skip_run(a + r, d, a.len() + i) == a.len() + skip_run(r, d, i),
    decreases r.len() - i,
{
    lemma_occurs_shift(a, r, d, i);
    if i < r.len() && occurs_at(r, d, i) {
        lemma_skip_run_shift(a, r, d, i + d.len());
    }
}

proof fn lemma_find_from_shift(a: Seq<u8>, r: Seq<u8>, d: Seq<u8>, i: int)
    requires
        d.len() > 0,
        0 <= i,
    ensures
        find_from(a + r, d, a.len() + i) == (match find_from(r, d, i) {
            Some(j) => Some(a.len() + j),
            None => None,
        }),
    decreases r.len() - i,
{
    lemma_occurs_shift(a, r, d, i);
    if i < r.len() && i + d.len() <= r.len() && !occurs_at(r, d, i) {
        lemma_find_from_shift(a, r, d, i + 1);
    }
}

/// The segments of `r` from offset `i` are those of `a + r` from the same
/// place.
proof fn lemma_segments_shift(a: Seq<u8>, r: Seq<u8>, d: Seq<u8>, i: int)
    requires
        d.len() > 0,
        0 <= i,
    ensures
        segments_from(a + r, d, a.len() + i) == segments_from(r, d, i),
    decreases r.len() - i,
{
    let h = a + r;
    if i < r.len() {
        lemma_skip_run_shift(a, r, d, i);
        lemma_skip_run_bounds(r, d, i);
        let q = skip_run(r, d, i);
        if q < r.len() {
            lemma_find_from_shift(a, r, d, q);
            lemma_find_from_bounds(r, d, q);
            match find_from(r, d, q) {
                None => {
                    assert(h.subrange(a.len() + q, h.len() as int) =~= r.subrange(q, r.len() as int));
                },
                Some(j) => {
                    assert(h.subrange(a.len() + q, a.len() + j) =~= r.subrange(q, j));
                    lemma_segments_shift(a, r, d, j + d.len());
                },
            }
        }
    }
}

/// A non-empty text has a non-empty encoding.
proof fn lemma_encode_nonempty(s: Seq<char>)
    requires
        s.len() > 0,
    ensures
        encode_utf8(s).len() > 0,
{
}

} // verus!
