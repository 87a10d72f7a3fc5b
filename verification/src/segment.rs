//! Cutting a stream of characters into lines. A line ends with a line feed,
//! with a carriage return, or with a carriage return and the line feed that
//! follows it; it keeps its ending. The text may arrive in pieces of any
//! size: the lines that come out are the same.

use crate::chars::chars_of;
use crate::rolling::joined;
use vstd::prelude::*;

verus! {

/// A line cut from the stream. It is `terminated` unless it is what was left
/// at the end of the stream, behind the last line ending.
#[derive(Debug, PartialEq, Eq)]
pub struct PendingLine {
    pub text: Vec<char>,
    pub terminated: bool,
}

/// What one piece of the stream leaves for the next to decide.
#[derive(Clone, Copy, Debug, PartialEq, Eq, Structural)]
pub struct CarryState {
    /// The piece ended right behind a carriage return, which the next
    /// character may turn into a carriage return and line feed.
    pub pending_cr: bool,
}

/// The state of the segmenter between characters: the line begun, and
/// whether a carriage return stands at its end, not yet decided.
#[derive(Debug, PartialEq, Eq)]
pub struct LineSegmenter {
    pub buffer: Vec<char>,
    pub carry: CarryState,
}

/// A carriage return, a line feed, or a carriage return and a line feed.
pub open spec fn is_line_ending_text(s: Seq<char>) -> bool {
    s == seq!['\r'] || s == seq!['\n'] || s == seq!['\r', '\n']
}

/// Whether `s` is nothing but a line ending.
pub fn is_line_ending(s: &str) -> (r: bool)
    ensures
        r == is_line_ending_text(s@),
{
    let c = chars_of(s);
    let r = if c.len() == 1 {
        c[0] == '\r' || c[0] == '\n'
    } else if c.len() == 2 {
        c[0] == '\r' && c[1] == '\n'
    } else {
        false
    };
    proof {
        if r {
            if c.len() == 1 {
                assert(s@ =~= seq![c@[0]]);
            } else {
                assert(s@ =~= seq!['\r', '\n']);
            }
        } else {
            assert(seq!['\r'].len() == 1 && seq!['\r'][0] == '\r');
            assert(seq!['\n'].len() == 1 && seq!['\n'][0] == '\n');
            assert(seq!['\r', '\n'].len() == 2 && seq!['\r', '\n'][0] == '\r' && seq![
                '\r',
                '\n',
            ][1] == '\n');
        }
    }
    r
}

/// The text ends in a carriage return.
pub open spec fn ends_with_cr(p: Seq<char>) -> bool {
    p.len() > 0 && p.last() == '\r'
}

/// The line that the character `c` completes, if any, where `p` is the line
/// begun so far.
pub open spec fn step_emit(p: Seq<char>, c: char) -> Option<Seq<char>> {
    if ends_with_cr(p) {
        if c == '\n' {
            Some(p.push(c))
        } else {
            Some(p)
        }
    } else if c == '\n' {
        Some(p.push(c))
    } else {
        None
    }
}

/// The line begun once `c` has been read behind `p`.
pub open spec fn step_pending(p: Seq<char>, c: char) -> Seq<char> {
    if ends_with_cr(p) {
        if c == '\n' {
            Seq::empty()
        } else {
            seq![c]
        }
    } else if c == '\n' {
        Seq::empty()
    } else {
        p.push(c)
    }
}

/// The line begun once the text `t` has been read behind `p`.
pub open spec fn scan_pending(p: Seq<char>, t: Seq<char>) -> Seq<char>
    decreases t.len(),
{
    if t.len() == 0 {
        p
    } else {
        step_pending(scan_pending(p, t.drop_last()), t.last())
    }
}

/// The lines completed while the text `t` is read behind `p`, in order.
pub open spec fn scan_lines(p: Seq<char>, t: Seq<char>) -> Seq<Seq<char>>
    decreases t.len(),
{
    if t.len() == 0 {
        Seq::empty()
    } else {
        let before = scan_lines(p, t.drop_last());
        match step_emit(scan_pending(p, t.drop_last()), t.last()) {
            Some(line) => before.push(line),
            None => before,
        }
    }
}

/// The text of the line, if there is one.
pub open spec fn text_of_line(line: Option<PendingLine>) -> Option<Seq<char>> {
    match line {
        Some(l) => Some(l.text@),
        None => None,
    }
}

/// The texts of `lines`, in order.
pub open spec fn texts_of(lines: Seq<PendingLine>) -> Seq<Seq<char>> {
    Seq::new(lines.len(), |i: int| lines[i].text@)
}

impl LineSegmenter {
    /// The line begun: the buffer, and behind it the carriage return that is
    /// still undecided.
    pub open spec fn view(&self) -> Seq<char> {
        if self.carry.pending_cr {
            self.buffer@.push('\r')
        } else {
            self.buffer@
        }
    }

    /// The buffer holds no carriage return: one that arrives is kept in
    /// `carry` until the next character decides what it ends.
    pub open spec fn wf(&self) -> bool {
        forall|i: int| 0 <= i < self.buffer@.len() ==> self.buffer@[i] != '\r'
    }

    /// A segmenter at the start of a stream.
    pub fn new() -> (r: LineSegmenter)
        ensures
            r.wf(),
            r@ == Seq::<char>::empty(),
    {
        LineSegmenter { buffer: Vec::new(), carry: CarryState { pending_cr: false } }
    }

    /// Reads one character, and hands out the line that it completes.
    pub fn push_char(&mut self, c: char) -> (r: Option<PendingLine>)
        requires
            old(self).wf(),
        ensures
            final(self).wf(),
            final(self)@ == step_pending(old(self)@, c),
            text_of_line(r) == step_emit(old(self)@, c),
            r matches Some(line) ==> line.terminated,
    {
        if self.carry.pending_cr {
            let mut text: Vec<char> = Vec::new();
            std::mem::swap(&mut self.buffer, &mut text);
            text.push('\r');
            if c == '\n' {
                text.push(c);
                self.carry.pending_cr = false;
            } else if c != '\r' {
                self.buffer.push(c);
                self.carry.pending_cr = false;
                assert(self.buffer@ =~= seq![c]);
            } else {
                assert(self.buffer@.push('\r') =~= seq![c]);
            }
            Some(PendingLine { text, terminated: true })
        } else if c == '\n' {
            let mut text: Vec<char> = Vec::new();
            std::mem::swap(&mut self.buffer, &mut text);
            text.push(c);
            Some(PendingLine { text, terminated: true })
        } else if c == '\r' {
            self.carry.pending_cr = true;
            None
        } else {
            self.buffer.push(c);
            None
        }
    }

    /// Reads a piece of the stream, and hands out the lines that it
    /// completes. What is left of the last line stays in the segmenter.
    pub fn feed(&mut self, chars: &[char]) -> (lines: Vec<PendingLine>)
        requires
            old(self).wf(),
        ensures
            final(self).wf(),
            final(self)@ == scan_pending(old(self)@, chars@),
            texts_of(lines@) == scan_lines(old(self)@, chars@),
            forall|i: int| 0 <= i < lines@.len() ==> (#[trigger] lines@[i]).terminated,
    {
        let mut lines: Vec<PendingLine> = Vec::new();
        let mut i: usize = 0;
        assert(texts_of(lines@) =~= scan_lines(self@, chars@.take(0)));
        while i < chars.len()
            invariant
                i <= chars.len(),
                self.wf(),
                self@ == scan_pending(old(self)@, chars@.take(i as int)),
                texts_of(lines@) == scan_lines(old(self)@, chars@.take(i as int)),
                forall|k: int| 0 <= k < lines@.len() ==> (#[trigger] lines@[k]).terminated,
            decreases chars.len() - i,
        {
            let ghost before = texts_of(lines@);
            let emitted = self.push_char(chars[i]);
            proof {
                assert(chars@.take(i + 1).drop_last() =~= chars@.take(i as int));
                assert(chars@.take(i + 1).last() == chars@[i as int]);
            }
            match emitted {
                Some(line) => {
                    lines.push(line);
                    assert(texts_of(lines@) =~= before.push(line.text@));
                },
                None => {},
            }
            i += 1;
        }
        assert(chars@.take(i as int) =~= chars@);
        lines
    }

    /// Ends the stream: hands out what is left of the last line, if
    /// anything. It counts as terminated where a carriage return ends it.
    pub fn finish(&mut self) -> (r: Option<PendingLine>)
        requires
            old(self).wf(),
        ensures
            final(self).wf(),
            final(self)@ == Seq::<char>::empty(),
            r.is_some() == (old(self)@.len() > 0),
            r matches Some(line) ==> line.text@ == old(self)@ && line.terminated == ends_with_cr(
                old(self)@,
            ),
    {
        let mut text: Vec<char> = Vec::new();
        std::mem::swap(&mut self.buffer, &mut text);
        if self.carry.pending_cr {
            text.push('\r');
            self.carry.pending_cr = false;
            Some(PendingLine { text, terminated: true })
        } else if text.len() > 0 {
            Some(PendingLine { text, terminated: false })
        } else {
            None
        }
    }
}

/// Text without a carriage return or a line feed.
pub open spec fn is_content(s: Seq<char>) -> bool {
    forall|i: int| 0 <= i < s.len() ==> s[i] != '\r' && s[i] != '\n'
}

/// How many characters at the end of `l` are its line ending: two for a
/// carriage return and line feed, one for either alone, none otherwise.
pub open spec fn ending_len(l: Seq<char>) -> nat {
    if l.len() >= 2 && l[l.len() - 2] == '\r' && l.last() == '\n' {
        2
    } else if l.len() >= 1 && (l.last() == '\n' || l.last() == '\r') {
        1
    } else {
        0
    }
}

/// How many characters at the end of `text` are its line ending.
pub fn ending_length(text: &[char]) -> (r: usize)
    ensures
        r == ending_len(text@),
        r <= text@.len(),
{
    let n = text.len();
    if n >= 2 && text[n - 2] == '\r' && text[n - 1] == '\n' {
        2
    } else if n >= 1 && (text[n - 1] == '\n' || text[n - 1] == '\r') {
        1
    } else {
        0
    }
}

/// The text of a line before its line ending.
pub open spec fn content_of(l: Seq<char>) -> Seq<char> {
    l.take(l.len() - ending_len(l))
}

/// The line ending of a line: nothing, where it has none.
pub open spec fn ending_of(l: Seq<char>) -> Seq<char> {
    l.skip(l.len() - ending_len(l))
}

/// A text is nothing but a line ending where it has one and nothing before
/// it.
pub proof fn lemma_line_ending_alone(l: Seq<char>)
    ensures
        is_line_ending_text(l) == (l.len() > 0 && content_of(l).len() == 0),
{
    if l.len() > 0 && content_of(l).len() == 0 {
        if l.len() == 1 {
            assert(l =~= seq![l[0]]);
        } else {
            assert(l =~= seq!['\r', '\n']);
        }
    }
    if is_line_ending_text(l) {
        assert(seq!['\r'].len() == 1 && seq!['\r'][0] == '\r');
        assert(seq!['\n'].len() == 1 && seq!['\n'][0] == '\n');
        assert(seq!['\r', '\n'].len() == 2 && seq!['\r', '\n'][0] == '\r' && seq![
            '\r',
            '\n',
        ][1] == '\n');
    }
}

/// A whole line: text without line endings, then one line ending.
pub open spec fn is_whole_line(l: Seq<char>) -> bool {
    ending_len(l) > 0 && is_content(l.take(l.len() - ending_len(l)))
}

/// A line begun: text without line endings, and perhaps a carriage return
/// behind it that is still undecided.
pub open spec fn is_partial_line(p: Seq<char>) -> bool {
    is_content(p) || (ends_with_cr(p) && is_content(p.drop_last()))
}

/// Reading a text in two pieces gives the lines, and leaves the line begun,
/// that reading it in one piece gives: where a piece ends does not matter.
pub proof fn lemma_scan_concat(p: Seq<char>, a: Seq<char>, b: Seq<char>)
    ensures
        scan_pending(p, a + b) == scan_pending(scan_pending(p, a), b),
        scan_lines(p, a + b) == scan_lines(p, a) + scan_lines(scan_pending(p, a), b),
    decreases b.len(),
{
    if b.len() == 0 {
        assert(a + b =~= a);
        assert(scan_lines(p, a) + Seq::<Seq<char>>::empty() =~= scan_lines(p, a));
    } else {
        lemma_scan_concat(p, a, b.drop_last());
        assert((a + b).drop_last() =~= a + b.drop_last());
        assert((a + b).last() == b.last());
        let q = scan_pending(p, a);
        let before = scan_lines(q, b.drop_last());
        match step_emit(scan_pending(q, b.drop_last()), b.last()) {
            Some(line) => {
                assert((scan_lines(p, a) + before).push(line) =~= scan_lines(p, a) + before.push(
                    line,
                ));
            },
            None => {},
        }
    }
}

/// Nothing is lost and nothing added: the lines handed out, laid end to end,
/// and the line begun behind them, are the text that was read.
pub proof fn lemma_scan_keeps_text(p: Seq<char>, t: Seq<char>)
    ensures
        joined(scan_lines(p, t)) + scan_pending(p, t) == p + t,
    decreases t.len(),
{
    if t.len() == 0 {
        assert(joined(scan_lines(p, t)) + p =~= p + t);
    } else {
        let u = t.drop_last();
        let c = t.last();
        lemma_scan_keeps_text(p, u);
        let q = scan_pending(p, u);
        let before = scan_lines(p, u);
        assert(p + t =~= (p + u).push(c));
        match step_emit(q, c) {
            Some(line) => {
                assert(before.push(line).drop_last() =~= before);
                assert(joined(before.push(line)) == joined(before) + line);
                assert(joined(before) + line + step_pending(q, c) =~= (joined(before) + q).push(
                    c,
                ));
            },
            None => {
                assert(joined(before) + q.push(c) =~= (joined(before) + q).push(c));
            },
        }
    }
}

/// Every line handed out is a whole line, and what stays behind is a line
/// begun.
pub proof fn lemma_scan_shapes(p: Seq<char>, t: Seq<char>)
    requires
        is_partial_line(p),
    ensures
        is_partial_line(scan_pending(p, t)),
        forall|i: int|
            0 <= i < scan_lines(p, t).len() ==> is_whole_line(#[trigger] scan_lines(p, t)[i]),
    decreases t.len(),
{
    if t.len() > 0 {
        let u = t.drop_last();
        let c = t.last();
        lemma_scan_shapes(p, u);
        let q = scan_pending(p, u);
        lemma_step_shapes(q, c);
        let before = scan_lines(p, u);
        assert forall|i: int| 0 <= i < scan_lines(p, t).len() implies is_whole_line(
            #[trigger] scan_lines(p, t)[i],
        ) by {
            if i < before.len() {
                assert(scan_lines(p, t)[i] == before[i]);
            }
        }
    }
}

proof fn lemma_step_shapes(q: Seq<char>, c: char)
    requires
        is_partial_line(q),
    ensures
        is_partial_line(step_pending(q, c)),
        step_emit(q, c) matches Some(line) ==> is_whole_line(line),
{
    if ends_with_cr(q) {
        assert(!is_content(q));
        let body = q.drop_last();
        if c == '\n' {
            let line = q.push(c);
            assert(line.take(line.len() - 2) =~= body);
        } else {
            assert(q.take(q.len() - 1) =~= body);
            if body.len() > 0 {
                assert(q[q.len() - 2] == body[body.len() - 1]);
            }
            let r = seq![c];
            if c == '\r' {
                assert(r.drop_last() =~= Seq::<char>::empty());
            }
        }
    } else {
        assert(is_content(q));
        if c == '\n' {
            let line = q.push(c);
            assert(line.take(line.len() - 1) =~= q);
            if q.len() > 0 {
                assert(line[line.len() - 2] == q[q.len() - 1]);
            }
        } else if c == '\r' {
            assert(q.push(c).drop_last() =~= q);
        }
    }
}

/// A carriage return at the end of one piece and a line feed at the start of
/// the next end one line, not two: the first piece hands out no line for the
/// carriage return, and the line feed completes the line that the carriage
/// return stands in.
pub proof fn lemma_crlf_kept_whole(p: Seq<char>, a: Seq<char>, b: Seq<char>)
    ensures
        scan_lines(p, a.push('\r')) == scan_lines(p, a) + (if ends_with_cr(scan_pending(p, a)) {
            seq![scan_pending(p, a)]
        } else {
            Seq::empty()
        }),
        ends_with_cr(scan_pending(p, a.push('\r'))),
        scan_lines(scan_pending(p, a.push('\r')), seq!['\n'] + b).len() > 0,
        scan_lines(scan_pending(p, a.push('\r')), seq!['\n'] + b)[0] == scan_pending(
            p,
            a.push('\r'),
        ).push('\n'),
        scan_lines(p, a.push('\r') + (seq!['\n'] + b)) == scan_lines(p, a.push('\r'))
            + scan_lines(scan_pending(p, a.push('\r')), seq!['\n'] + b),
{
    let first = a.push('\r');
    let q = scan_pending(p, first);
    assert(first.drop_last() =~= a);
    lemma_scan_concat(p, first, seq!['\n'] + b);
    lemma_scan_concat(q, seq!['\n'], b);
    let one = seq!['\n'];
    assert(one.drop_last() =~= Seq::<char>::empty());
    assert(scan_lines(q, one.drop_last()) =~= Seq::<Seq<char>>::empty());
    assert(scan_pending(q, one.drop_last()) == q);
    assert(scan_lines(q, one) =~= seq![q.push('\n')]);
    if !ends_with_cr(scan_pending(p, a)) {
        assert(scan_lines(p, a) + Seq::<Seq<char>>::empty() =~= scan_lines(p, a));
    } else {
        assert(scan_lines(p, a).push(scan_pending(p, a)) =~= scan_lines(p, a) + seq![
            scan_pending(p, a),
        ]);
    }
}

} // verus!
