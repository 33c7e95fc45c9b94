//! Removes comments and collapses whitespace, keeping the row and column of
//! every character that is kept.

use vstd::prelude::*;

verus! {

/// A character of the source with its 1-based row and column.
#[derive(Clone, Copy, Debug, PartialEq, Eq, Hash, Structural)]
pub struct PositionedChar {
    pub c: char,
    pub row: usize,
    pub col: usize,
}

#[derive(Clone, Copy, Debug, PartialEq, Eq, Hash, Structural)]
pub enum PreprocessError {
    /// The input ended inside a `/* ... */` comment; the position is the one
    /// reached at the end of the input.
    EofWhileBlockComment { row: usize, col: usize },
}

/// Where the scanner stands with respect to comments.
#[derive(Clone, Copy, Debug, PartialEq, Eq, Structural)]
pub enum CommentState {
    /// Ordinary source text.
    Code,
    /// A slash was seen in code; it is held back until the next character
    /// tells whether it opens a comment.
    EnteringInlineOrBlock(PositionedChar),
    /// Inside a `//` comment.
    Inline,
    /// Inside a `/* */` comment.
    Block,
    /// Inside a block comment, right after a `*`.
    LeavingBlock,
}

/// Row of the character at index `i` (or of the end, for `i == src.len()`).
pub open spec fn row_at(src: Seq<char>, i: int) -> int
    decreases i,
{
    if i <= 0 {
        1
    } else if src[i - 1] == '\n' {
        row_at(src, i - 1) + 1
    } else {
        row_at(src, i - 1)
    }
}

/// Column of the character at index `i` (or of the end, for `i == src.len()`).
pub open spec fn col_at(src: Seq<char>, i: int) -> int
    decreases i,
{
    if i <= 0 {
        1
    } else if src[i - 1] == '\n' {
        1
    } else {
        col_at(src, i - 1) + 1
    }
}

/// The character at index `i` of `src`, with its position.
pub open spec fn at(src: Seq<char>, i: int) -> PositionedChar {
    PositionedChar { c: src[i], row: row_at(src, i) as usize, col: col_at(src, i) as usize }
}

/// The characters of a positioned sequence.
pub open spec fn text_of(cs: Seq<PositionedChar>) -> Seq<char> {
    cs.map_values(|p: PositionedChar| p.c)
}

/// Nothing has been emitted yet, or the last thing emitted is a space: a
/// further space would be redundant.
pub open spec fn is_spaced(out: Seq<PositionedChar>) -> bool {
    out.len() == 0 || out.last().c == ' '
}

/// Emits a space at the position of `p`, unless one would be redundant.
pub open spec fn space_before(out: Seq<PositionedChar>, p: PositionedChar) -> Seq<PositionedChar> {
    if is_spaced(out) {
        out
    } else {
        out.push(PositionedChar { c: ' ', row: p.row, col: p.col })
    }
}

/// Emits a character met in code: whitespace collapses to one space.
pub open spec fn code_char(out: Seq<PositionedChar>, p: PositionedChar) -> Seq<PositionedChar> {
    if p.c == '\n' || p.c == ' ' {
        space_before(out, p)
    } else {
        out.push(p)
    }
}

/// The scanner between two characters: its comment state and what it emitted.
pub struct Scan {
    pub state: CommentState,
    pub out: Seq<PositionedChar>,
}

/// One transition of the scanner on the character `p`.
pub open spec fn step(s: Scan, p: PositionedChar) -> Scan {
    match s.state {
        CommentState::Code => {
            if p.c == '/' {
                Scan { state: CommentState::EnteringInlineOrBlock(p), out: s.out }
            } else {
                Scan { state: CommentState::Code, out: code_char(s.out, p) }
            }
        },
        CommentState::EnteringInlineOrBlock(slash) => {
            if p.c == '/' {
                Scan { state: CommentState::Inline, out: space_before(s.out, slash) }
            } else if p.c == '*' {
                Scan { state: CommentState::Block, out: space_before(s.out, slash) }
            } else {
                Scan { state: CommentState::Code, out: code_char(s.out.push(slash), p) }
            }
        },
        CommentState::Inline => Scan {
            state: if p.c == '\n' {
                CommentState::Code
            } else {
                CommentState::Inline
            },
            out: s.out,
        },
        CommentState::Block => Scan {
            state: if p.c == '*' {
                CommentState::LeavingBlock
            } else {
                CommentState::Block
            },
            out: s.out,
        },
        CommentState::LeavingBlock => Scan {
            state: if p.c == '/' {
                CommentState::Code
            } else {
                CommentState::Block
            },
            out: s.out,
        },
    }
}

/// The scanner after the first `k` characters of `src`.
pub open spec fn scan(src: Seq<char>, k: int) -> Scan
    decreases k,
{
    if k <= 0 {
        Scan { state: CommentState::Code, out: Seq::empty() }
    } else {
        step(scan(src, k - 1), at(src, k - 1))
    }
}

/// Drops one trailing space.
pub open spec fn trim_end(out: Seq<PositionedChar>) -> Seq<PositionedChar> {
    if out.len() > 0 && out.last().c == ' ' {
        out.drop_last()
    } else {
        out
    }
}

/// Whether the input ended inside a block comment.
pub open spec fn in_block_comment(state: CommentState) -> bool {
    state is Block || state is LeavingBlock
}

/// What preprocessing `src` gives: an error if the input ends inside a block
/// comment; otherwise what was emitted, with a held-back slash flushed and a
/// trailing space dropped.
pub open spec fn preprocessed(src: Seq<char>) -> Result<Seq<PositionedChar>, PreprocessError> {
    let s = scan(src, src.len() as int);
    if in_block_comment(s.state) {
        Err(
            PreprocessError::EofWhileBlockComment {
                row: row_at(src, src.len() as int) as usize,
                col: col_at(src, src.len() as int) as usize,
            },
        )
    } else {
        match s.state {
            CommentState::EnteringInlineOrBlock(slash) => Ok(trim_end(s.out.push(slash))),
            _ => Ok(trim_end(s.out)),
        }
    }
}

proof fn lemma_position_bounds(src: Seq<char>, i: int)
    requires
        0 <= i,
    ensures
        1 <= row_at(src, i) <= i + 1,
        1 <= col_at(src, i) <= i + 1,
    decreases i,
{
    if i > 0 {
        lemma_position_bounds(src, i - 1);
    }
}

fn emit_space(out: &mut Vec<PositionedChar>, spaced: &mut bool, p: PositionedChar)
    requires
        *old(spaced) == is_spaced(old(out)@),
    ensures
        final(out)@ == space_before(old(out)@, p),
        *final(spaced) == is_spaced(final(out)@),
{
    if !*spaced {
        out.push(PositionedChar { c: ' ', row: p.row, col: p.col });
        *spaced = true;
    }
}

fn emit_code_char(out: &mut Vec<PositionedChar>, spaced: &mut bool, p: PositionedChar)
    requires
        *old(spaced) == is_spaced(old(out)@),
    ensures
        final(out)@ == code_char(old(out)@, p),
        *final(spaced) == is_spaced(final(out)@),
{
    if p.c == '\n' || p.c == ' ' {
        emit_space(out, spaced, p);
    } else {
        out.push(p);
        *spaced = false;
    }
}

/// Strips `//` and `/* */` comments and collapses each run of spaces, line
/// breaks and comments into one space, never at the start or the end. Each
/// character keeps the row and column where it stood in `source`; a slash
/// that ends the input is kept. Fails if the input ends inside a block
/// comment.
pub fn preprocess(source: String) -> (r: Result<Vec<PositionedChar>, PreprocessError>)
    requires
        source@.len() < usize::MAX,
    ensures
        match r {
            Ok(v) => preprocessed(source@) == Ok::<Seq<PositionedChar>, PreprocessError>(v@),
            Err(e) => preprocessed(source@) == Err::<Seq<PositionedChar>, PreprocessError>(e),
        },
        r is Err <==> in_block_comment(scan(source@, source@.len() as int).state),
        r matches Err(PreprocessError::EofWhileBlockComment { row, col }) ==> row == row_at(
            source@,
            source@.len() as int,
        ) && col == col_at(source@, source@.len() as int),
{
    let mut out: Vec<PositionedChar> = Vec::new();
    let mut row: usize = 1;
    let mut col: usize = 1;
    let mut spaced = true;
    let mut state = CommentState::Code;
    for c in it: source.as_str().chars()
        invariant
            it.seq() == source@,
            source@.len() < usize::MAX,
            row as int == row_at(source@, it.index() as int),
            col as int == col_at(source@, it.index() as int),
            spaced == is_spaced(out@),
            scan(source@, it.index() as int) == (Scan { state, out: out@ }),
    {
        let ghost i = it.index() as int;
        proof {
            lemma_position_bounds(source@, i);
        }
        let p = PositionedChar { c, row, col };
        assert(p == at(source@, i));
        match state {
            CommentState::Code => {
                if c == '/' {
                    state = CommentState::EnteringInlineOrBlock(p);
                } else {
                    emit_code_char(&mut out, &mut spaced, p);
                }
            },
            CommentState::EnteringInlineOrBlock(slash) => {
                if c == '/' {
                    emit_space(&mut out, &mut spaced, slash);
                    state = CommentState::Inline;
                } else if c == '*' {
                    emit_space(&mut out, &mut spaced, slash);
                    state = CommentState::Block;
                } else {
                    out.push(slash);
                    spaced = false;
                    emit_code_char(&mut out, &mut spaced, p);
                    state = CommentState::Code;
                }
            },
            CommentState::Inline => {
                if c == '\n' {
                    state = CommentState::Code;
                }
            },
            CommentState::Block => {
                if c == '*' {
                    state = CommentState::LeavingBlock;
                }
            },
            CommentState::LeavingBlock => {
                if c == '/' {
                    state = CommentState::Code;
                } else {
                    state = CommentState::Block;
                }
            },
        }
        if c == '\n' {
            row = row + 1;
            col = 1;
        } else {
            col = col + 1;
        }
    }
    match state {
        CommentState::Block | CommentState::LeavingBlock => {
            return Err(PreprocessError::EofWhileBlockComment { row, col });
        },
        CommentState::EnteringInlineOrBlock(slash) => {
            out.push(slash);
        },
        _ => {},
    }
    if out.len() > 0 && out[out.len() - 1].c == ' ' {
        out.pop();
    }
    Ok(out)
}

/// `p` is the character at some index of `src`, with that index's position.
pub open spec fn from_source(src: Seq<char>, p: PositionedChar) -> bool {
    exists|i: int| 0 <= i < src.len() && p == at(src, i)
}

/// No `//` and no `/*` in `cs`.
pub open spec fn no_comment_opener(cs: Seq<PositionedChar>) -> bool {
    forall|j: int|
        0 <= j < cs.len() - 1 ==> !(#[trigger] cs[j].c == '/' && (cs[j + 1].c == '/' || cs[j
            + 1].c == '*'))
}

/// Text in the shape that preprocessing gives: one line, single spaces
/// between words, none at either end, and nothing that opens a comment.
pub open spec fn is_clean(t: Seq<char>) -> bool {
    &&& forall|j: int| 0 <= j < t.len() ==> #[trigger] t[j] != '\n'
    &&& t.len() > 0 ==> t[0] != ' ' && t.last() != ' '
    &&& forall|j: int| 0 <= j < t.len() - 1 ==> !(#[trigger] t[j] == ' ' && t[j + 1] == ' ')
    &&& forall|j: int|
        0 <= j < t.len() - 1 ==> !(#[trigger] t[j] == '/' && (t[j + 1] == '/' || t[j + 1] == '*'))
}

/// What holds of the scanner at every step: what it emitted comes from the
/// source, and is clean except perhaps for a trailing space.
spec fn scan_inv(src: Seq<char>, s: Scan) -> bool {
    &&& forall|j: int|
        0 <= j < s.out.len() && #[trigger] s.out[j].c != ' ' ==> from_source(src, s.out[j])
    &&& s.state matches CommentState::EnteringInlineOrBlock(slash) ==> from_source(src, slash)
        && slash.c == '/'
    &&& is_clean_but_last(text_of(s.out))
    &&& s.out.len() > 0 ==> s.out.last().c != '/'
}

spec fn is_clean_but_last(t: Seq<char>) -> bool {
    &&& forall|j: int| 0 <= j < t.len() ==> #[trigger] t[j] != '\n'
    &&& t.len() > 0 ==> t[0] != ' '
    &&& forall|j: int| 0 <= j < t.len() - 1 ==> !(#[trigger] t[j] == ' ' && t[j + 1] == ' ')
    &&& forall|j: int|
        0 <= j < t.len() - 1 ==> !(#[trigger] t[j] == '/' && (t[j + 1] == '/' || t[j + 1] == '*'))
}

proof fn lemma_text_push(out: Seq<PositionedChar>, p: PositionedChar)
    ensures
        text_of(out.push(p)) == text_of(out).push(p.c),
{
    assert(text_of(out.push(p)) =~= text_of(out).push(p.c));
}

proof fn lemma_clean_push(out: Seq<PositionedChar>, p: PositionedChar)
    requires
        is_clean_but_last(text_of(out)),
        p.c != '\n',
        p.c == ' ' ==> !is_spaced(out),
        out.len() > 0 && out.last().c == '/' ==> p.c != '/' && p.c != '*',
    ensures
        is_clean_but_last(text_of(out.push(p))),
{
    lemma_text_push(out, p);
    let t = text_of(out.push(p));
    assert forall|j: int| 0 <= j < t.len() - 1 implies !(#[trigger] t[j] == ' ' && t[j + 1] == ' ')
        by {
        if j == t.len() - 2 {
            assert(t[j] == out.last().c);
        }
    }
    assert forall|j: int|
        0 <= j < t.len() - 1 implies !(#[trigger] t[j] == '/' && (t[j + 1] == '/' || t[j + 1]
            == '*')) by {
        if j == t.len() - 2 {
            assert(t[j] == out.last().c);
        }
    }
}

proof fn lemma_scan_inv(src: Seq<char>, k: int)
    requires
        0 <= k <= src.len(),
    ensures
        scan_inv(src, scan(src, k)),
    decreases k,
{
    if k == 0 {
        assert(text_of(Seq::<PositionedChar>::empty()) =~= Seq::<char>::empty());
    } else {
        lemma_scan_inv(src, k - 1);
        let s = scan(src, k - 1);
        let p = at(src, k - 1);
        assert(from_source(src, p));
        let sp = PositionedChar { c: ' ', row: p.row, col: p.col };
        match s.state {
            CommentState::Code => {
                if p.c != '/' && !(is_spaced(s.out) && (p.c == '\n' || p.c == ' ')) {
                    let x = if p.c == '\n' || p.c == ' ' { sp } else { p };
                    lemma_clean_push(s.out, x);
                }
            },
            CommentState::EnteringInlineOrBlock(slash) => {
                let sl = PositionedChar { c: ' ', row: slash.row, col: slash.col };
                if p.c == '/' || p.c == '*' {
                    if !is_spaced(s.out) {
                        lemma_clean_push(s.out, sl);
                    }
                } else {
                    lemma_clean_push(s.out, slash);
                    let o = s.out.push(slash);
                    let x = if p.c == '\n' || p.c == ' ' { sp } else { p };
                    lemma_clean_push(o, x);
                }
            },
            _ => {},
        }
    }
}

/// Preprocessing keeps positions and leaves no comment behind: each kept
/// character other than an inserted space stands in the source at the row
/// and column it carries, and the output holds no `//` and no `/*`.
pub proof fn lemma_preprocess_keeps_positions(src: Seq<char>)
    requires
        preprocessed(src) is Ok,
    ensures
        forall|j: int|
            0 <= j < preprocessed(src)->Ok_0.len() && #[trigger] preprocessed(src)->Ok_0[j].c
                != ' ' ==> from_source(src, preprocessed(src)->Ok_0[j]),
        no_comment_opener(preprocessed(src)->Ok_0),
        is_clean(text_of(preprocessed(src)->Ok_0)),
{
    lemma_scan_inv(src, src.len() as int);
    let s = scan(src, src.len() as int);
    let out = preprocessed(src)->Ok_0;
    let o = if let CommentState::EnteringInlineOrBlock(slash) = s.state {
        lemma_clean_push(s.out, slash);
        s.out.push(slash)
    } else {
        s.out
    };
    assert(out == trim_end(o));
    let t = text_of(o);
    if o.len() > 0 && o.last().c == ' ' {
        assert(text_of(out) =~= t.drop_last());
        if o.len() >= 2 {
            assert(t[o.len() - 2] != ' ');
        }
    }
    assert forall|j: int|
        0 <= j < out.len() - 1 implies !(#[trigger] out[j].c == '/' && (out[j + 1].c == '/'
            || out[j + 1].c == '*')) by {
        assert(t[j] == out[j].c && t[j + 1] == out[j + 1].c);
    }
}

/// Where the scanner stands on clean text after `k` characters: it has
/// emitted the text read so far, holding back a final slash.
spec fn clean_scan(t: Seq<char>, k: int, s: Scan) -> bool {
    if k > 0 && t[k - 1] == '/' {
        s.state == CommentState::EnteringInlineOrBlock(at(t, k - 1)) && text_of(s.out) == t.take(
            k - 1,
        )
    } else {
        s.state == CommentState::Code && text_of(s.out) == t.take(k)
    }
}

proof fn lemma_clean_scan(t: Seq<char>, k: int)
    requires
        is_clean(t),
        0 <= k <= t.len(),
    ensures
        clean_scan(t, k, scan(t, k)),
    decreases k,
{
    if k == 0 {
        assert(text_of(Seq::<PositionedChar>::empty()) =~= t.take(0));
    } else {
        lemma_clean_scan(t, k - 1);
        let s = scan(t, k - 1);
        let p = at(t, k - 1);
        let sp = PositionedChar { c: ' ', row: p.row, col: p.col };
        let o = if k - 1 > 0 && t[k - 2] == '/' {
            lemma_text_push(s.out, at(t, k - 2));
            assert(t.take(k - 2).push(t[k - 2]) =~= t.take(k - 1));
            s.out.push(at(t, k - 2))
        } else {
            s.out
        };
        assert(text_of(o) == t.take(k - 1));
        if k - 1 > 0 {
            assert(o.last().c == text_of(o)[k - 2]);
        }
        if p.c != '/' {
            let x = if p.c == ' ' { sp } else { p };
            lemma_text_push(o, x);
            assert(t.take(k - 1).push(t[k - 1]) =~= t.take(k));
        }
    }
}

/// Preprocessing is idempotent: preprocessing the text of its own output
/// succeeds and gives back the same characters.
pub proof fn lemma_preprocess_idempotent(src: Seq<char>)
    requires
        preprocessed(src) is Ok,
    ensures
        preprocessed(text_of(preprocessed(src)->Ok_0)) is Ok,
        text_of(preprocessed(text_of(preprocessed(src)->Ok_0))->Ok_0) == text_of(
            preprocessed(src)->Ok_0,
        ),
{
    lemma_preprocess_keeps_positions(src);
    let t = text_of(preprocessed(src)->Ok_0);
    lemma_clean_scan(t, t.len() as int);
    let s = scan(t, t.len() as int);
    let o = if t.len() > 0 && t[t.len() - 1] == '/' {
        lemma_text_push(s.out, at(t, t.len() - 1));
        assert(t.take(t.len() - 1).push(t[t.len() - 1]) =~= t);
        s.out.push(at(t, t.len() - 1))
    } else {
        assert(t.take(t.len() as int) =~= t);
        s.out
    };
    assert(text_of(o) == t);
    if o.len() > 0 {
        assert(o.last().c == t.last());
    }
}

} // verus!
