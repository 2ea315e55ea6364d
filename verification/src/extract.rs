use vstd::prelude::*;

verus! {

/// One discrete decision question, paired with its 0-based position in the
/// order the questions appeared in the model's response.
#[derive(Debug)]
pub struct Question {
    pub text: String,
    pub sequence_index: usize,
}

/// The extraction stream ended in a transport or model error; carries the
/// number of characters that had been buffered, for diagnostics.
#[derive(Debug, Clone, Copy, PartialEq, Eq)]
pub struct GenerationFailure {
    pub partial_len: usize,
}

/// The whitespace characters that are stripped from the ends of a question:
/// the ASCII whitespace set.
pub open spec fn is_space(c: char) -> bool {
    c == ' ' || c == '\t' || c == '\n' || c == '\r' || c == '\u{b}' || c == '\u{c}'
}

/// True when the two-character marker token `Q:` stands at position `i`.
pub open spec fn marker_at(s: Seq<char>, i: int) -> bool {
    0 <= i && i + 2 <= s.len() && s[i] == 'Q' && s[i + 1] == ':'
}

/// Position of the first marker at or after `from`; `s.len()` when there is
/// none.
pub open spec fn first_marker_from(s: Seq<char>, from: int) -> int
    decreases s.len() - from,
{
    if from + 2 <= s.len() {
        if s[from] == 'Q' && s[from + 1] == ':' {
            from
        } else {
            first_marker_from(s, from + 1)
        }
    } else {
        s.len() as int
    }
}

proof fn lemma_first_marker_from_bounds(s: Seq<char>, from: int)
    ensures
        first_marker_from(s, from) == s.len() || (from <= first_marker_from(s, from)
            && first_marker_from(s, from) + 2 <= s.len()),
    decreases s.len() - from,
{
    if from + 2 <= s.len() && !(s[from] == 'Q' && s[from + 1] == ':') {
        lemma_first_marker_from_bounds(s, from + 1);
    }
}

pub proof fn lemma_first_marker_from(s: Seq<char>, from: int)
    requires
        0 <= from,
    ensures
        first_marker_from(s, from) == s.len() || (from <= first_marker_from(s, from)
            && marker_at(s, first_marker_from(s, from))),
        forall|t: int| from <= t < first_marker_from(s, from) ==> !marker_at(s, t),
    decreases s.len() - from,
{
    if from + 2 <= s.len() && !(s[from] == 'Q' && s[from + 1] == ':') {
        lemma_first_marker_from(s, from + 1);
    }
}

/// First index at or after `a` whose character is not whitespace; `s.len()`
/// when all of the rest is whitespace.
pub open spec fn trim_start_idx(s: Seq<char>, a: int) -> int
    decreases s.len() - a,
{
    if a < s.len() && is_space(s[a]) {
        trim_start_idx(s, a + 1)
    } else {
        a
    }
}

/// Last bound `<= b` and `>= a` such that the characters between it and `b`
/// are all whitespace and the one before it is not.
pub open spec fn trim_end_idx(s: Seq<char>, a: int, b: int) -> int
    decreases b - a,
{
    if a < b && b <= s.len() && is_space(s[b - 1]) {
        trim_end_idx(s, a, b - 1)
    } else {
        b
    }
}

/// `s` with leading and trailing whitespace removed.
pub open spec fn spec_trim(s: Seq<char>) -> Seq<char> {
    let a = trim_start_idx(s, 0);
    s.subrange(a, trim_end_idx(s, a, s.len() as int))
}

proof fn lemma_trim_start_idx_bounds(s: Seq<char>, a: int)
    requires
        0 <= a <= s.len(),
    ensures
        a <= trim_start_idx(s, a) <= s.len(),
    decreases s.len() - a,
{
    if a < s.len() && is_space(s[a]) {
        lemma_trim_start_idx_bounds(s, a + 1);
    }
}

#[via_fn]
proof fn questions_from_decreases(s: Seq<char>, i: int) {
    lemma_first_marker_from_bounds(s, i);
}

/// The questions found at and after position `i`, where `i` stands just
/// after a marker: the text up to the next marker (or the end) is one chunk;
/// a chunk is trimmed, dropped if then empty, and followed by the questions
/// of the rest.
pub open spec fn questions_from(s: Seq<char>, i: int) -> Seq<Seq<char>>
    decreases s.len() - i,
        via questions_from_decreases
{
    let j = first_marker_from(s, i);
    let t = spec_trim(s.subrange(i, j));
    let rest = if j == s.len() {
        Seq::<Seq<char>>::empty()
    } else {
        questions_from(s, j + 2)
    };
    if t.len() == 0 {
        rest
    } else {
        seq![t] + rest
    }
}

/// The questions segmented out of a reassembled model response: everything
/// left of the first marker is discarded; each remaining marker-delimited
/// piece is trimmed; pieces that are then empty are dropped; the rest are
/// kept in their original order.
pub open spec fn spec_questions(s: Seq<char>) -> Seq<Seq<char>> {
    let j = first_marker_from(s, 0);
    if j == s.len() {
        Seq::<Seq<char>>::empty()
    } else {
        questions_from(s, j + 2)
    }
}

/// The texts of a question sequence, in order.
pub open spec fn question_texts(qs: Seq<Question>) -> Seq<Seq<char>> {
    qs.map_values(|q: Question| q.text@)
}

/// A response with no occurrence of the marker token yields no questions.
pub proof fn lemma_no_marker_no_questions(s: Seq<char>)
    requires
        forall|i: int| !marker_at(s, i),
    ensures
        spec_questions(s).len() == 0,
{
    lemma_first_marker_from(s, 0);
}

fn is_space_char(c: char) -> (b: bool)
    ensures
        b == is_space(c),
{
    c == ' ' || c == '\t' || c == '\n' || c == '\r' || c == '\u{b}' || c == '\u{c}'
}

/// Index of the first marker at or after `from`, or `n` when there is none.
fn find_marker(s: &str, from: usize, n: usize) -> (r: usize)
    requires
        n == s@.len(),
        from <= n,
    ensures
        r as int == first_marker_from(s@, from as int),
        from <= r <= n,
{
    let mut i: usize = from;
    while n - i >= 2
        invariant
            from <= i <= n,
            n == s@.len(),
            first_marker_from(s@, from as int) == first_marker_from(s@, i as int),
        decreases n - i,
    {
        let c0 = s.get_char(i);
        let c1 = s.get_char(i + 1);
        if c0 == 'Q' && c1 == ':' {
            proof {
                lemma_first_marker_from(s@, from as int);
            }
            return i;
        }
        i = i + 1;
    }
    n
}

/// The bounds of `s[i..j]` once leading and trailing whitespace is dropped.
fn trim_bounds(s: &str, i: usize, j: usize, n: usize) -> (r: (usize, usize))
    requires
        n == s@.len(),
        i <= j <= n,
    ensures
        i <= r.0 <= r.1 <= j,
        r.0 - i == trim_start_idx(s@.subrange(i as int, j as int), 0),
        r.1 - i == trim_end_idx(s@.subrange(i as int, j as int), r.0 - i, j - i),
        s@.subrange(r.0 as int, r.1 as int) == spec_trim(s@.subrange(i as int, j as int)),
{
    let ghost u = s@.subrange(i as int, j as int);
    let mut a: usize = i;
    while a < j && is_space_char(s.get_char(a))
        invariant
            i <= a <= j <= n,
            n == s@.len(),
            u == s@.subrange(i as int, j as int),
            trim_start_idx(u, 0) == trim_start_idx(u, a - i),
        decreases j - a,
    {
        assert(u[a - i] == s@[a as int]);
        a = a + 1;
    }
    assert(trim_start_idx(u, a - i) == a - i);
    let mut b: usize = j;
    while b > a && is_space_char(s.get_char(b - 1))
        invariant
            i <= a <= b <= j <= n,
            n == s@.len(),
            u == s@.subrange(i as int, j as int),
            trim_start_idx(u, 0) == a - i,
            trim_end_idx(u, a - i, j - i) == trim_end_idx(u, a - i, b - i),
        decreases b,
    {
        assert(u[b - i - 1] == s@[b - 1]);
        b = b - 1;
    }
    assert(trim_end_idx(u, a - i, b - i) == b - i);
    assert(s@.subrange(a as int, b as int) =~= u.subrange(a - i, b - i));
    (a, b)
}

/// Segments a fully reassembled model response into its decision questions.
/// The prefix left of the first `Q:` marker is discarded; every later
/// marker-delimited piece is trimmed of surrounding whitespace; pieces that
/// are empty after trimming are dropped; the remaining pieces are returned
/// in their original order, each carrying its 0-based position.
pub fn segment_response(response: &str) -> (qs: Vec<Question>)
    ensures
        question_texts(qs@) == spec_questions(response@),
        forall|t: int| 0 <= t < qs@.len() ==> (#[trigger] qs@[t]).sequence_index == t,
{
    let n = response.unicode_len();
    let mut qs: Vec<Question> = Vec::new();
    let j0 = find_marker(response, 0, n);
    if j0 == n {
        assert(question_texts(qs@) =~= spec_questions(response@));
        return qs;
    }
    proof {
        lemma_first_marker_from(response@, 0);
    }
    let mut cur: usize = j0 + 2;
    assert(question_texts(qs@) + questions_from(response@, cur as int) =~= spec_questions(
        response@,
    ));
    loop
        invariant_except_break
            question_texts(qs@) + questions_from(response@, cur as int) == spec_questions(
                response@,
            ),
        invariant
            cur <= n,
            n == response@.len(),
            forall|t: int| 0 <= t < qs@.len() ==> (#[trigger] qs@[t]).sequence_index == t,
        ensures
            question_texts(qs@) == spec_questions(response@),
            forall|t: int| 0 <= t < qs@.len() ==> (#[trigger] qs@[t]).sequence_index == t,
        decreases n - cur,
    {
        let ghost qs_before = qs@;
        let j = find_marker(response, cur, n);
        proof {
            lemma_first_marker_from(response@, cur as int);
            lemma_trim_start_idx_bounds(response@.subrange(cur as int, j as int), 0);
        }
        let (a, b) = trim_bounds(response, cur, j, n);
        let ghost chunk = spec_trim(response@.subrange(cur as int, j as int));
        if a < b {
            let text = String::from_str(response.substring_char(a, b));
            let idx = qs.len();
            qs.push(Question { text, sequence_index: idx });
            assert(question_texts(qs@) =~= question_texts(qs_before).push(chunk));
        } else {
            assert(chunk.len() == 0);
        }
        let ghost rest = if j as int == response@.len() {
            Seq::<Seq<char>>::empty()
        } else {
            questions_from(response@, j + 2)
        };
        assert(questions_from(response@, cur as int) == if chunk.len() == 0 {
            rest
        } else {
            seq![chunk] + rest
        });
        assert(question_texts(qs@) + rest =~= spec_questions(response@)) by {
            if chunk.len() == 0 {
            } else {
                assert(question_texts(qs_before) + (seq![chunk] + rest) =~= (question_texts(
                    qs_before,
                ).push(chunk)) + rest);
            }
        }
        if j == n {
            assert(question_texts(qs@) =~= question_texts(qs@) + rest);
            break;
        }
        cur = j + 2;
    }
    qs
}

/// Incremental consumer of a streamed model response: fragments are appended
/// to a growing buffer as they arrive, and segmentation runs only once the
/// stream is exhausted, over the fully reassembled buffer. Progress is
/// observable as the count of fragments consumed.
pub struct DecisionExtractor {
    buffer: String,
    fragments: usize,
}

impl DecisionExtractor {
    /// The reassembled response text consumed so far.
    pub closed spec fn spec_buffer(self) -> Seq<char> {
        self.buffer@
    }

    /// How many fragments have been consumed so far (saturating).
    pub closed spec fn spec_fragments(self) -> int {
        self.fragments as int
    }

    pub fn new() -> (e: DecisionExtractor)
        ensures
            e.spec_buffer() == Seq::<char>::empty(),
            e.spec_fragments() == 0,
    {
        DecisionExtractor { buffer: String::new(), fragments: 0 }
    }

    /// The model is only invoked on a non-empty diff: an empty diff yields an
    /// empty question sequence without any model call.
    pub fn needs_model(diff: &str) -> (b: bool)
        ensures
            b == (diff@.len() != 0),
    {
        !diff.is_empty()
    }

    /// Consume one delivered fragment: append it to the buffer and count it.
    pub fn push_fragment(&mut self, fragment: &str)
        ensures
            final(self).spec_buffer() == old(self).spec_buffer() + fragment@,
            final(self).spec_fragments() == if old(self).spec_fragments() < usize::MAX {
                old(self).spec_fragments() + 1
            } else {
                old(self).spec_fragments()
            },
    {
        self.buffer.append(fragment);
        if self.fragments < usize::MAX {
            self.fragments = self.fragments + 1;
        }
    }

    pub fn fragment_count(&self) -> (c: usize)
        ensures
            c as int == self.spec_fragments(),
    {
        self.fragments
    }

    /// The stream is exhausted: segment the reassembled buffer.
    pub fn finish(self) -> (qs: Vec<Question>)
        ensures
            question_texts(qs@) == spec_questions(self.spec_buffer()),
            forall|t: int| 0 <= t < qs@.len() ==> (#[trigger] qs@[t]).sequence_index == t,
    {
        segment_response(self.buffer.as_str())
    }

    /// The stream ended in an error: extraction fails without partial
    /// recovery, reporting how much had been buffered.
    pub fn fail(self) -> (e: GenerationFailure)
        ensures
            e.partial_len == self.spec_buffer().len(),
    {
        let n = self.buffer.as_str().unicode_len();
        GenerationFailure { partial_len: n }
    }
}

} // verus!
