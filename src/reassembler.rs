//! Turns a byte stream that arrives in arbitrary chunks into delimited lines.
use vstd::prelude::*;

verus! {

/// Carriage return.
pub const CR: u8 = 13;

/// Line feed.
pub const LF: u8 = 10;

/// A byte that ends a line: carriage return or line feed.
pub open spec fn is_delimiter(b: u8) -> bool {
    b == CR || b == LF
}

/// ASCII whitespace as trimmed from both ends of a line: space, tab, line
/// feed, vertical tab, form feed and carriage return.
pub open spec fn is_space(b: u8) -> bool {
    b == 32 || (9 <= b && b <= 13)
}

/// `s` with its leading whitespace removed.
pub open spec fn trim_start(s: Seq<u8>) -> Seq<u8>
    decreases s.len(),
{
    if s.len() > 0 && is_space(s[0]) {
        trim_start(s.subrange(1, s.len() as int))
    } else {
        s
    }
}

/// `s` with its trailing whitespace removed.
pub open spec fn trim_end(s: Seq<u8>) -> Seq<u8>
    decreases s.len(),
{
    if s.len() > 0 && is_space(s.last()) {
        trim_end(s.drop_last())
    } else {
        s
    }
}

/// `s` with whitespace removed from both ends.
pub open spec fn trim(s: Seq<u8>) -> Seq<u8> {
    trim_end(trim_start(s))
}

/// The bytes between `lo` and `hi` of `buf`, trimmed.
fn trimmed_range(buf: &Vec<u8>, lo: usize, hi: usize) -> (r: Vec<u8>)
    requires
        lo <= hi <= buf@.len(),
    ensures
        r@ == trim(buf@.subrange(lo as int, hi as int)),
{
    let mut a: usize = lo;
    while a < hi && (buf[a] == 32 || (9 <= buf[a] && buf[a] <= 13))
        invariant
            lo <= a <= hi <= buf@.len(),
            trim_start(buf@.subrange(a as int, hi as int)) == trim_start(
                buf@.subrange(lo as int, hi as int),
            ),
        decreases hi - a,
    {
        assert(buf@.subrange(a as int, hi as int).subrange(1, (hi - a) as int) =~= buf@.subrange(
            a + 1,
            hi as int,
        ));
        a = a + 1;
    }
    let mut b: usize = hi;
    while b > a && (buf[b - 1] == 32 || (9 <= buf[b - 1] && buf[b - 1] <= 13))
        invariant
            lo <= a <= b <= hi <= buf@.len(),
            trim_start(buf@.subrange(a as int, hi as int)) == buf@.subrange(a as int, hi as int),
            trim_end(buf@.subrange(a as int, b as int)) == trim_end(
                buf@.subrange(a as int, hi as int),
            ),
            trim_start(buf@.subrange(lo as int, hi as int)) == buf@.subrange(a as int, hi as int),
        decreases b - a,
    {
        assert(buf@.subrange(a as int, b as int).drop_last() =~= buf@.subrange(
            a as int,
            b - 1,
        ));
        b = b - 1;
    }
    let mut r: Vec<u8> = Vec::new();
    let mut k: usize = a;
    while k < b
        invariant
            a <= k <= b <= buf@.len(),
            r@ == buf@.subrange(a as int, k as int),
        decreases b - k,
    {
        r.push(buf[k]);
        assert(r@ =~= buf@.subrange(a as int, k + 1));
        k = k + 1;
    }
    r
}

/// `s` holds a carriage return or a line feed somewhere.
pub open spec fn contains_delimiter(s: Seq<u8>) -> bool {
    exists|i: int| 0 <= i < s.len() && is_delimiter(#[trigger] s[i])
}

/// Position `i` of `s` holds the first delimiter of `s`.
pub open spec fn is_first_delimiter(s: Seq<u8>, i: int) -> bool {
    &&& 0 <= i < s.len()
    &&& is_delimiter(s[i])
    &&& forall|j: int| 0 <= j < i ==> !is_delimiter(#[trigger] s[j])
}

/// The line made of `l`, if it is not empty; nothing otherwise.
pub open spec fn keep(l: Seq<u8>) -> Seq<Seq<u8>> {
    if l.len() > 0 {
        seq![l]
    } else {
        Seq::empty()
    }
}

/// The completed lines of the byte stream `s`, in order: `s` is cut at each
/// delimiter, each piece before a delimiter is trimmed, and the pieces that
/// are empty after trimming are dropped. The bytes after the last delimiter
/// form no line yet.
pub open spec fn lines_of(s: Seq<u8>) -> Seq<Seq<u8>>
    decreases s.len(),
{
    if exists|i: int| is_first_delimiter(s, i) {
        let i = choose|i: int| is_first_delimiter(s, i);
        keep(trim(s.subrange(0, i))) + lines_of(s.subrange(i + 1, s.len() as int))
    } else {
        Seq::empty()
    }
}

/// The bytes of `s` after its last delimiter (all of `s` if it holds none):
/// what stays buffered until a later delimiter completes the line.
pub open spec fn rest_of(s: Seq<u8>) -> Seq<u8>
    decreases s.len(),
{
    if exists|i: int| is_first_delimiter(s, i) {
        let i = choose|i: int| is_first_delimiter(s, i);
        rest_of(s.subrange(i + 1, s.len() as int))
    } else {
        s
    }
}

/// The contents of a sequence of byte vectors.
pub open spec fn lines_view(v: Seq<Vec<u8>>) -> Seq<Seq<u8>> {
    v.map_values(|l: Vec<u8>| l@)
}

/// A sequence has at most one first delimiter.
proof fn lemma_first_delimiter_unique(s: Seq<u8>, i: int, j: int)
    requires
        is_first_delimiter(s, i),
        is_first_delimiter(s, j),
    ensures
        i == j,
{
    if i < j {
        assert(!is_delimiter(s[i]));
    } else if j < i {
        assert(!is_delimiter(s[j]));
    }
}

/// Unfolds `lines_of` and `rest_of` at a known first delimiter.
proof fn lemma_cut_at(s: Seq<u8>, i: int)
    requires
        is_first_delimiter(s, i),
    ensures
        lines_of(s) == keep(trim(s.subrange(0, i))) + lines_of(s.subrange(i + 1, s.len() as int)),
        rest_of(s) == rest_of(s.subrange(i + 1, s.len() as int)),
{
    let c = choose|c: int| is_first_delimiter(s, c);
    lemma_first_delimiter_unique(s, c, i);
}

/// The rest of a stream never holds a delimiter.
pub proof fn lemma_rest_has_no_delimiter(s: Seq<u8>)
    ensures
        !contains_delimiter(rest_of(s)),
    decreases s.len(),
{
    if exists|i: int| is_first_delimiter(s, i) {
        let i = choose|i: int| is_first_delimiter(s, i);
        lemma_rest_has_no_delimiter(s.subrange(i + 1, s.len() as int));
    } else {
        if contains_delimiter(s) {
            let k = choose|k: int| 0 <= k < s.len() && is_delimiter(#[trigger] s[k]);
            lemma_some_first_delimiter(s, k);
        }
    }
}

/// Where a sequence holds a delimiter at `k`, it has a first one.
proof fn lemma_some_first_delimiter(s: Seq<u8>, k: int)
    requires
        0 <= k < s.len(),
        is_delimiter(s[k]),
    ensures
        exists|i: int| is_first_delimiter(s, i),
    decreases k,
{
    if forall|j: int| 0 <= j < k ==> !is_delimiter(#[trigger] s[j]) {
        assert(is_first_delimiter(s, k));
    } else {
        let j = choose|j: int| 0 <= j < k && is_delimiter(#[trigger] s[j]);
        lemma_some_first_delimiter(s, j);
    }
}

/// A line feed right after a carriage return adds no line and no rest.
proof fn lemma_skip_line_feed(s: Seq<u8>)
    requires
        s.len() > 0,
        s[0] == LF,
    ensures
        lines_of(s) == lines_of(s.subrange(1, s.len() as int)),
        rest_of(s) == rest_of(s.subrange(1, s.len() as int)),
{
    assert(is_first_delimiter(s, 0));
    lemma_cut_at(s, 0);
    let e = s.subrange(0, 0);
    assert(e.len() == 0);
    assert(trim_start(e) == e);
    assert(trim(e) == e);
    assert(keep(trim(e)) =~= Seq::<Seq<u8>>::empty());
    assert(keep(trim(e)) + lines_of(s.subrange(1, s.len() as int)) =~= lines_of(
        s.subrange(1, s.len() as int),
    ));
}

/// The bytes of `chunks` one after another.
pub open spec fn concat(chunks: Seq<Seq<u8>>) -> Seq<u8>
    decreases chunks.len(),
{
    if chunks.len() == 0 {
        Seq::empty()
    } else {
        chunks[0] + concat(chunks.drop_first())
    }
}

/// The lines returned, joined in order, when `chunks` are fed one after
/// another to a buffer that holds `pending`.
pub open spec fn fed_lines(pending: Seq<u8>, chunks: Seq<Seq<u8>>) -> Seq<Seq<u8>>
    decreases chunks.len(),
{
    if chunks.len() == 0 {
        Seq::empty()
    } else {
        lines_of(pending + chunks[0]) + fed_lines(
            rest_of(pending + chunks[0]),
            chunks.drop_first(),
        )
    }
}

/// What a buffer that holds `pending` holds after `chunks` are fed to it one
/// after another.
pub open spec fn fed_rest(pending: Seq<u8>, chunks: Seq<Seq<u8>>) -> Seq<u8>
    decreases chunks.len(),
{
    if chunks.len() == 0 {
        pending
    } else {
        fed_rest(rest_of(pending + chunks[0]), chunks.drop_first())
    }
}

/// Cutting a stream in two changes neither its lines nor its rest: the lines
/// of `s + t` are those of `s` followed by those of what `s` left buffered,
/// followed by `t`.
pub proof fn lemma_split_stream(s: Seq<u8>, t: Seq<u8>)
    ensures
        lines_of(s + t) == lines_of(s) + lines_of(rest_of(s) + t),
        rest_of(s + t) == rest_of(rest_of(s) + t),
    decreases s.len(),
{
    if exists|i: int| is_first_delimiter(s, i) {
        let i = choose|i: int| is_first_delimiter(s, i);
        let st = s + t;
        let tail = s.subrange(i + 1, s.len() as int);
        assert(is_first_delimiter(st, i)) by {
            assert forall|j: int| 0 <= j < i implies !is_delimiter(#[trigger] st[j]) by {
                assert(st[j] == s[j]);
            }
        }
        lemma_cut_at(st, i);
        lemma_cut_at(s, i);
        assert(st.subrange(0, i) =~= s.subrange(0, i));
        assert(st.subrange(i + 1, st.len() as int) =~= tail + t);
        lemma_split_stream(tail, t);
        assert(lines_of(st) =~= lines_of(s) + lines_of(rest_of(s) + t));
    } else {
        assert(lines_of(s) == Seq::<Seq<u8>>::empty());
        assert(rest_of(s) == s);
        assert(lines_of(s + t) =~= lines_of(s) + lines_of(rest_of(s) + t));
    }
}

/// Feeding a stream in chunks returns the same lines, in the same order, and
/// leaves the same bytes buffered, as feeding it whole to a fresh buffer:
/// no line is split or fused at a chunk boundary, and no byte is lost.
pub proof fn lemma_feed_chunks(chunks: Seq<Seq<u8>>)
    ensures
        fed_lines(Seq::empty(), chunks) == lines_of(concat(chunks)),
        fed_rest(Seq::empty(), chunks) == rest_of(concat(chunks)),
{
    lemma_feed_chunks_from(Seq::empty(), chunks);
    assert(Seq::<u8>::empty() + concat(chunks) =~= concat(chunks));
}

/// `lemma_feed_chunks`, from a buffer that already holds `pending`.
pub proof fn lemma_feed_chunks_from(pending: Seq<u8>, chunks: Seq<Seq<u8>>)
    requires
        !contains_delimiter(pending),
    ensures
        fed_lines(pending, chunks) == lines_of(pending + concat(chunks)),
        fed_rest(pending, chunks) == rest_of(pending + concat(chunks)),
    decreases chunks.len(),
{
    if chunks.len() == 0 {
        assert(pending + concat(chunks) =~= pending);
        lemma_no_delimiter_no_lines(pending);
    } else {
        let c = chunks[0];
        let cs = chunks.drop_first();
        lemma_rest_has_no_delimiter(pending + c);
        lemma_feed_chunks_from(rest_of(pending + c), cs);
        lemma_split_stream(pending + c, concat(cs));
        assert((pending + c) + concat(cs) =~= pending + concat(chunks));
    }
}

/// A stream with no delimiter completes no line and stays whole.
pub proof fn lemma_no_delimiter_no_lines(s: Seq<u8>)
    requires
        !contains_delimiter(s),
    ensures
        lines_of(s) == Seq::<Seq<u8>>::empty(),
        rest_of(s) == s,
{
    if exists|i: int| is_first_delimiter(s, i) {
        let i = choose|i: int| is_first_delimiter(s, i);
        assert(is_delimiter(s[i]));
    }
}

/// The raw pieces of the stream `s` up to its last delimiter, in order: each
/// is the bytes before a delimiter followed by that delimiter.
pub open spec fn pieces(s: Seq<u8>) -> Seq<Seq<u8>>
    decreases s.len(),
{
    if exists|i: int| is_first_delimiter(s, i) {
        let i = choose|i: int| is_first_delimiter(s, i);
        seq![s.subrange(0, i + 1)] + pieces(s.subrange(i + 1, s.len() as int))
    } else {
        Seq::empty()
    }
}

/// The line that each raw piece carries, in order: the piece without its
/// delimiter, trimmed, where that leaves something.
pub open spec fn piece_lines(ps: Seq<Seq<u8>>) -> Seq<Seq<u8>>
    decreases ps.len(),
{
    if ps.len() == 0 {
        Seq::empty()
    } else {
        keep(trim(ps[0].drop_last())) + piece_lines(ps.drop_first())
    }
}

/// Reassembly loses nothing and keeps the order: the raw pieces of a stream,
/// each with its delimiter, followed by the rest, are the stream itself; and
/// its lines are what those pieces carry, the empty ones left out.
pub proof fn lemma_lossless(s: Seq<u8>)
    ensures
        concat(pieces(s)) + rest_of(s) == s,
        lines_of(s) == piece_lines(pieces(s)),
    decreases s.len(),
{
    if exists|i: int| is_first_delimiter(s, i) {
        let i = choose|i: int| is_first_delimiter(s, i);
        let head = s.subrange(0, i + 1);
        let tail = s.subrange(i + 1, s.len() as int);
        lemma_lossless(tail);
        let ps = seq![head] + pieces(tail);
        assert(ps[0] == head);
        assert(ps.drop_first() =~= pieces(tail));
        assert(head.drop_last() =~= s.subrange(0, i));
        assert(concat(ps) == head + concat(pieces(tail)));
        let x = concat(pieces(tail));
        let r = rest_of(tail);
        assert(head + tail =~= s);
        assert((head + x) + r =~= head + (x + r));
    } else {
        assert(concat(Seq::<Seq<u8>>::empty()) + s =~= s);
    }
}

/// The per-session line buffer: the bytes received since the last completed
/// line.
#[derive(Debug)]
pub struct Reassembler {
    pending: Vec<u8>,
}

impl View for Reassembler {
    type V = Seq<u8>;

    closed spec fn view(&self) -> Seq<u8> {
        self.pending@
    }
}

impl Reassembler {
    /// A buffer that holds nothing yet.
    pub fn new() -> (r: Reassembler)
        ensures
            r@ == Seq::<u8>::empty(),
    {
        Reassembler { pending: Vec::new() }
    }

    /// The bytes that wait for a delimiter.
    pub fn pending(&self) -> (r: &[u8])
        ensures
            r@ == self@,
    {
        self.pending.as_slice()
    }

    /// The number of bytes that wait for a delimiter.
    pub fn pending_len(&self) -> (n: usize)
        ensures
            n == self@.len(),
    {
        self.pending.len()
    }

    /// Appends `chunk` to the buffered bytes and returns every line that this
    /// completes, in order; the bytes after the last delimiter stay buffered.
    /// A carriage return directly followed by a line feed ends one line.
    pub fn feed(&mut self, chunk: &[u8]) -> (lines: Vec<Vec<u8>>)
        ensures
            lines_view(lines@) == lines_of(old(self)@ + chunk@),
            final(self)@ == rest_of(old(self)@ + chunk@),
            !contains_delimiter(final(self)@),
    {
        let ghost whole = self.pending@ + chunk@;
        let mut i: usize = 0;
        while i < chunk.len()
            invariant
                0 <= i <= chunk@.len(),
                self.pending@ == old(self)@ + chunk@.subrange(0, i as int),
            decreases chunk@.len() - i,
        {
            self.pending.push(chunk[i]);
            assert(chunk@.subrange(0, i + 1) =~= chunk@.subrange(0, i as int).push(chunk@[i as int]));
            i = i + 1;
        }
        assert(chunk@.subrange(0, chunk@.len() as int) =~= chunk@);
        assert(self.pending@ == whole);
        let len: usize = self.pending.len();
        let mut lines: Vec<Vec<u8>> = Vec::new();
        let mut start: usize = 0;
        assert(whole.subrange(0, len as int) =~= whole);
        loop
            invariant
                self.pending@ == whole,
                len == whole.len(),
                start <= len,
                lines_view(lines@) + lines_of(whole.subrange(start as int, len as int))
                    == lines_of(whole),
                rest_of(whole.subrange(start as int, len as int)) == rest_of(whole),
            ensures
                self.pending@ == whole,
                start <= len == whole.len(),
                lines_view(lines@) == lines_of(whole),
                whole.subrange(start as int, len as int) == rest_of(whole),
            decreases len - start,
        {
            let ghost sub = whole.subrange(start as int, len as int);
            let mut j: usize = start;
            while j < len && self.pending[j] != CR && self.pending[j] != LF
                invariant
                    self.pending@ == whole,
                    len == whole.len(),
                    start <= j <= len,
                    sub == whole.subrange(start as int, len as int),
                    forall|k: int| 0 <= k < j - start ==> !is_delimiter(#[trigger] sub[k]),
                decreases len - j,
            {
                j = j + 1;
            }
            if j == len {
                assert(!exists|c: int| is_first_delimiter(sub, c)) by {
                    if exists|c: int| is_first_delimiter(sub, c) {
                        let c = choose|c: int| is_first_delimiter(sub, c);
                        assert(!is_delimiter(sub[c]));
                    }
                }
                assert(lines_of(sub) == Seq::<Seq<u8>>::empty());
                assert(rest_of(sub) == sub);
                assert(lines_view(lines@) + Seq::<Seq<u8>>::empty() =~= lines_view(lines@));
                break;
            }
            let ghost p: int = j - start;
            assert(is_first_delimiter(sub, p));
            proof {
                lemma_cut_at(sub, p);
            }
            assert(sub.subrange(0, p) =~= whole.subrange(start as int, j as int));
            assert(sub.subrange(p + 1, sub.len() as int) =~= whole.subrange(j + 1, len as int));
            let line = trimmed_range(&self.pending, start, j);
            let ghost before = lines@;
            if line.len() > 0 {
                lines.push(line);
                assert(lines_view(lines@) =~= lines_view(before) + keep(line@));
            } else {
                assert(keep(line@) =~= Seq::<Seq<u8>>::empty());
                assert(lines_view(lines@) =~= lines_view(before) + keep(line@));
            }
            let mut cut: usize = j + 1;
            if self.pending[j] == CR && cut < len && self.pending[cut] == LF {
                let ghost next = whole.subrange(cut as int, len as int);
                assert(next.subrange(1, next.len() as int) =~= whole.subrange(cut + 1, len as int));
                proof {
                    lemma_skip_line_feed(next);
                }
                cut = cut + 1;
            }
            assert(lines_view(lines@) + lines_of(whole.subrange(cut as int, len as int)) =~= lines_view(before) + lines_of(sub));
            start = cut;
        }
        let rest = self.pending.split_off(start);
        self.pending = rest;
        proof {
            lemma_rest_has_no_delimiter(whole);
        }
        lines
    }
}

} // verus!
