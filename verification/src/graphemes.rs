//! Graphemes: what a document or an annotation puts into one spot of a line.

use crate::chars::{all_whitespace, all_word, only_whitespace, only_word_chars};
use crate::unicode::{display_width, is_line_ending, width};
use vstd::prelude::*;

verus! {

/// A grapheme as it is drawn.
#[derive(Debug)]
pub enum Grapheme {
    /// A line break.
    Newline,
    /// A tab, which reaches to the next tab stop.
    Tab { width: usize },
    /// Anything else, drawn as it is.
    Other { g: String },
}

/// What a `Grapheme` stands for.
#[verifier::ext_equal]
pub enum GraphemeView {
    Newline,
    Tab { width: nat },
    Other { g: Seq<char> },
}

/// The columns from `visual_x` to the next tab stop.
pub open spec fn to_tab_stop(visual_x: int, tab_width: int) -> nat {
    (tab_width - visual_x % tab_width) as nat
}

/// The columns that a string takes which is neither a tab nor a line break: one
/// if it begins with an ASCII char, else its display width, but never none.
pub open spec fn columns(g: Seq<char>) -> nat {
    if g.len() > 0 && g[0] <= '\u{7F}' {
        1
    } else if display_width(g) == 0 {
        1
    } else {
        display_width(g) as nat
    }
}

impl GraphemeView {
    /// The grapheme that is spelled `g`, drawn at column `visual_x`.
    pub open spec fn spelled(g: Seq<char>, visual_x: int, tab_width: int) -> GraphemeView {
        if g == seq!['\t'] {
            GraphemeView::Tab { width: to_tab_stop(visual_x, tab_width) }
        } else if is_line_ending(g) {
            GraphemeView::Newline
        } else {
            GraphemeView::Other { g }
        }
    }

    /// The same grapheme, moved to column `visual_x`: the width of a tab depends
    /// on where it stands.
    pub open spec fn moved_to(self, visual_x: int, tab_width: int) -> GraphemeView {
        match self {
            GraphemeView::Tab { .. } => GraphemeView::Tab {
                width: to_tab_stop(visual_x, tab_width),
            },
            _ => self,
        }
    }

    pub open spec fn width(self) -> nat {
        match self {
            GraphemeView::Newline => 1,
            GraphemeView::Tab { width } => width,
            GraphemeView::Other { g } => columns(g),
        }
    }

    pub open spec fn is_whitespace(self) -> bool {
        match self {
            GraphemeView::Other { g } => only_whitespace(g),
            _ => true,
        }
    }

    pub open spec fn is_word_boundary(self) -> bool {
        match self {
            GraphemeView::Other { g } => !only_word_chars(g),
            _ => true,
        }
    }
}

/// The law of what a grapheme shows. A line break takes a column, an ASCII char other than a tab
/// takes one, and every other grapheme takes one at least. A line break and a tab are whitespace
/// and end a word. Of ASCII chars, only the blank and the tab are whitespace, and all but
/// letters, digits and the underscore end a word.
pub proof fn law_what_a_grapheme_shows(c: char, g: Seq<char>, visual_x: int, tab_width: int)
    requires
        0 <= visual_x,
        0 < tab_width,
        c <= '\u{7F}',
    ensures
        GraphemeView::spelled(g, visual_x, tab_width).width() >= 1,
        GraphemeView::Newline.width() == 1,
        GraphemeView::Newline.is_whitespace(),
        GraphemeView::Newline.is_word_boundary(),
        (GraphemeView::Tab { width: tab_width as nat }).is_whitespace(),
        (GraphemeView::Tab { width: tab_width as nat }).is_word_boundary(),
        ({
            let one = GraphemeView::spelled(seq![c], visual_x, tab_width);
            &&& one is Tab <==> c == '\t'
            &&& one is Newline <==> c == '\n'
            &&& c != '\t' ==> one.width() == 1
            &&& one.is_whitespace() <==> c == ' ' || c == '\t' || c == '\n'
            &&& !one.is_word_boundary() <==> 'a' <= c <= 'z' || 'A' <= c <= 'Z' || '0' <= c <= '9'
                || c == '_'
        }),
{
    law_tab_reaches_the_stop(visual_x, tab_width);
    assert(seq![c][0] == c);
    assert(seq!['\t'][0] == '\t');
    assert(seq!['\n'][0] == '\n');
    assert(seq!['\r', '\n'].len() == 2);
    if c == '\t' {
        assert(seq![c] =~= seq!['\t']);
    }
    if c == '\n' {
        assert(seq![c] =~= seq!['\n']);
    }
}

/// The law of tabs. A tab takes a column at least, and no more than the tab width, and behind it
/// there is a multiple of the tab width.
pub proof fn law_tab_reaches_the_stop(visual_x: int, tab_width: int)
    requires
        0 <= visual_x,
        0 < tab_width,
    ensures
        1 <= to_tab_stop(visual_x, tab_width) <= tab_width,
        (visual_x + to_tab_stop(visual_x, tab_width)) % tab_width == 0,
{
    let q = visual_x / tab_width;
    let r = visual_x % tab_width;
    let n = to_tab_stop(visual_x, tab_width);
    assert(0 <= r < tab_width && visual_x == q * tab_width + r) by (nonlinear_arith)
        requires
            0 < tab_width,
            q == visual_x / tab_width,
            r == visual_x % tab_width,
    ;
    assert(visual_x + n == (q + 1) * tab_width) by (nonlinear_arith)
        requires
            n == tab_width - r,
            visual_x == q * tab_width + r,
    ;
    assert(((q + 1) * tab_width) % tab_width == 0) by (nonlinear_arith)
        requires
            0 < tab_width,
    ;
}

/// The columns from `visual_x` to the next tab stop.
pub fn tab_width_at(visual_x: usize, tab_width: u16) -> (columns: usize)
    requires
        tab_width > 0,
    ensures
        columns == to_tab_stop(visual_x as int, tab_width as int),
        1 <= columns <= tab_width,
{
    tab_width as usize - visual_x % tab_width as usize
}

/// The columns that the string of a grapheme takes.
pub fn grapheme_width(g: &str) -> (n: usize)
    ensures
        n == columns(g@),
        n >= 1,
{
    let first = g.chars().next();
    if let Some(c) = first {
        if c <= '\u{7F}' {
            return 1;
        }
    }
    visible_width(width(g))
}

/// The columns of a grapheme that is `width` wide: even an ill-formed one takes some, so
/// that it can be edited.
pub fn visible_width(width: usize) -> (n: usize)
    ensures
        n == if width == 0 {
            1
        } else {
            width
        },
{
    if width == 0 {
        1
    } else {
        width
    }
}

/// Whether `s` consists of the chars `a` and then, if there is one, `b`.
fn is_made_of(s: &str, a: char, b: Option<char>) -> (r: bool)
    ensures
        r == (s@ == match b {
            Some(b) => seq![a, b],
            None => seq![a],
        }),
{
    let mut chars = s.chars();
    let first = chars.next();
    let second = chars.next();
    let third = chars.next();
    let r = first == Some(a) && second == b && third.is_none();
    proof {
        let want = match b {
            Some(b) => seq![a, b],
            None => seq![a],
        };
        if r {
            assert(s@ =~= want);
        }
    }
    r
}

impl View for Grapheme {
    type V = GraphemeView;

    open spec fn view(&self) -> GraphemeView {
        match self {
            Grapheme::Newline => GraphemeView::Newline,
            Grapheme::Tab { width } => GraphemeView::Tab { width: *width as nat },
            Grapheme::Other { g } => GraphemeView::Other { g: g@ },
        }
    }
}

impl Clone for Grapheme {
    fn clone(&self) -> (copy: Grapheme)
        ensures
            copy@ == self@,
    {
        match self {
            Grapheme::Newline => Grapheme::Newline,
            Grapheme::Tab { width } => Grapheme::Tab { width: *width },
            Grapheme::Other { g } => Grapheme::Other { g: g.clone() },
        }
    }
}

impl Grapheme {
    /// The grapheme that is spelled `g`, drawn at column `visual_x`.
    pub fn new(g: String, visual_x: usize, tab_width: u16) -> (grapheme: Grapheme)
        requires
            tab_width > 0,
        ensures
            grapheme@ == GraphemeView::spelled(g@, visual_x as int, tab_width as int),
            grapheme@.width() >= 1,
    {
        if is_made_of(&g, '\t', None) {
            Grapheme::Tab { width: tab_width_at(visual_x, tab_width) }
        } else if is_made_of(&g, '\n', None) || is_made_of(&g, '\r', Some('\n')) {
            Grapheme::Newline
        } else {
            Grapheme::Other { g }
        }
    }

    /// Moves the grapheme to column `visual_x`.
    pub fn change_position(&mut self, visual_x: usize, tab_width: u16)
        requires
            tab_width > 0,
        ensures
            final(self)@ == old(self)@.moved_to(visual_x as int, tab_width as int),
            old(self)@.width() >= 1 ==> final(self)@.width() >= 1,
    {
        if let Grapheme::Tab { width } = self {
            *width = tab_width_at(visual_x, tab_width);
        }
    }

    /// The columns that the grapheme takes.
    pub fn width(&self) -> (n: usize)
        ensures
            n == self@.width(),
    {
        match self {
            Grapheme::Newline => 1,
            Grapheme::Tab { width } => *width,
            Grapheme::Other { g } => grapheme_width(g),
        }
    }

    /// Whether the grapheme shows nothing: a tab, a line break or whitespace.
    pub fn is_whitespace(&self) -> (b: bool)
        ensures
            b == self@.is_whitespace(),
    {
        match self {
            Grapheme::Other { g } => all_whitespace(g),
            _ => true,
        }
    }

    /// Whether a word ends with the grapheme: all but letters, numbers and the
    /// underscore.
    pub fn is_word_boundary(&self) -> (b: bool)
        ensures
            b == self@.is_word_boundary(),
    {
        match self {
            Grapheme::Other { g } => !all_word(g),
            _ => true,
        }
    }

    /// Whether the grapheme is a line break.
    pub fn is_newline(&self) -> (b: bool)
        ensures
            b == (self@ is Newline),
    {
        match self {
            Grapheme::Newline => true,
            _ => false,
        }
    }
}

} // verus!
