//! A line of input with a cursor in it.

use vstd::prelude::*;

use crate::chars::substring;

verus! {

/// A line of input, split at the cursor.
pub struct TextInput {
    pub before: String,
    pub after: String,
}

#[verifier::ext_equal]
pub struct InputView {
    pub before: Seq<char>,
    pub after: Seq<char>,
}

impl View for TextInput {
    type V = InputView;

    open spec fn view(&self) -> InputView {
        InputView { before: self.before@, after: self.after@ }
    }
}

impl InputView {
    /// The whole line.
    pub open spec fn text(self) -> Seq<char> {
        self.before + self.after
    }
}

/// A line with the cursor at its end.
pub open spec fn input_of(t: Seq<char>) -> InputView {
    InputView { before: t, after: seq![] }
}

pub open spec fn typed(i: InputView, c: char) -> InputView {
    InputView { before: i.before.push(c), ..i }
}

pub open spec fn backspaced(i: InputView) -> InputView {
    if i.before.len() > 0 {
        InputView { before: i.before.drop_last(), ..i }
    } else {
        i
    }
}

pub open spec fn deleted(i: InputView) -> InputView {
    if i.after.len() > 0 {
        InputView { after: i.after.skip(1), ..i }
    } else {
        i
    }
}

pub open spec fn moved_left(i: InputView) -> InputView {
    if i.before.len() > 0 {
        InputView { before: i.before.drop_last(), after: seq![i.before.last()] + i.after }
    } else {
        i
    }
}

pub open spec fn moved_right(i: InputView) -> InputView {
    if i.after.len() > 0 {
        InputView { before: i.before.push(i.after[0]), after: i.after.skip(1) }
    } else {
        i
    }
}

pub open spec fn at_start(i: InputView) -> InputView {
    InputView { before: seq![], after: i.text() }
}

pub open spec fn at_end(i: InputView) -> InputView {
    InputView { before: i.text(), after: seq![] }
}

pub open spec fn killed(i: InputView) -> InputView {
    InputView { after: seq![], ..i }
}

/// Moving the cursor leaves the line as it is, and moving right undoes
/// moving left.
pub proof fn moving_keeps_text(i: InputView)
    ensures
        moved_left(i).text() == i.text(),
        moved_right(i).text() == i.text(),
        at_start(i).text() == i.text(),
        at_end(i).text() == i.text(),
        i.before.len() > 0 ==> moved_right(moved_left(i)) == i,
        i.after.len() > 0 ==> moved_left(moved_right(i)) == i,
{
    assert(moved_left(i).text() =~= i.text());
    assert(moved_right(i).text() =~= i.text());
    assert(at_start(i).text() =~= i.text());
    assert(at_end(i).text() =~= i.text());
    if i.before.len() > 0 {
        assert(moved_right(moved_left(i)) =~= i);
    }
    if i.after.len() > 0 {
        assert(moved_left(moved_right(i)) =~= i);
    }
}

/// Backspace takes back what was typed.
pub proof fn backspace_undoes_typing(i: InputView, c: char)
    ensures
        backspaced(typed(i, c)) == i,
{
    assert(backspaced(typed(i, c)) =~= i);
}

impl TextInput {
    pub fn new(s: &str) -> (i: TextInput)
        ensures
            i@ == input_of(s@),
    {
        let i = TextInput { before: s.to_owned(), after: String::new() };
        assert(i@ =~= input_of(s@));
        i
    }

    pub fn copy(&self) -> (i: TextInput)
        ensures
            i == *self,
    {
        TextInput { before: self.before.clone(), after: self.after.clone() }
    }

    /// The whole line.
    pub fn text(&self) -> (s: String)
        ensures
            s@ == self@.text(),
    {
        let mut s = self.before.clone();
        s.push_str(self.after.as_str());
        s
    }

    pub fn is_empty(&self) -> (r: bool)
        ensures
            r == (self@.text().len() == 0),
    {
        self.before.as_str().unicode_len() == 0 && self.after.as_str().unicode_len() == 0
    }

    /// How many bytes of the line lie before the cursor.
    pub fn cursor(&self) -> (n: usize)
        ensures
            n == vstd::utf8::encode_utf8(self@.before).len() as usize,
    {
        self.before.as_str().len()
    }

    pub fn set(&mut self, s: &str)
        ensures
            final(self)@ == input_of(s@),
    {
        self.before = s.to_owned();
        self.after = String::new();
        assert(self@ =~= input_of(s@));
    }

    pub fn insert_char(&mut self, c: char)
        ensures
            final(self)@ == typed(old(self)@, c),
    {
        self.before.push(c);
    }

    /// Tells whether there was a character to delete.
    pub fn delete_back(&mut self) -> (r: bool)
        ensures
            final(self)@ == backspaced(old(self)@),
            r == (old(self)@.before.len() > 0),
    {
        let n: usize = self.before.as_str().unicode_len();
        if n == 0 {
            return false;
        }
        self.before = substring(self.before.as_str(), 0, n - 1);
        assert(self@ =~= backspaced(old(self)@));
        true
    }

    /// Tells whether there was a character to delete.
    pub fn delete_forward(&mut self) -> (r: bool)
        ensures
            final(self)@ == deleted(old(self)@),
            r == (old(self)@.after.len() > 0),
    {
        let n: usize = self.after.as_str().unicode_len();
        if n == 0 {
            return false;
        }
        self.after = substring(self.after.as_str(), 1, n);
        assert(self@ =~= deleted(old(self)@));
        true
    }

    pub fn move_left(&mut self)
        ensures
            final(self)@ == moved_left(old(self)@),
    {
        let n: usize = self.before.as_str().unicode_len();
        if n == 0 {
            return;
        }
        let mut after = String::new();
        after.push(self.before.as_str().get_char(n - 1));
        after.push_str(self.after.as_str());
        self.after = after;
        self.before = substring(self.before.as_str(), 0, n - 1);
        assert(self@ =~= moved_left(old(self)@));
    }

    pub fn move_right(&mut self)
        ensures
            final(self)@ == moved_right(old(self)@),
    {
        let n: usize = self.after.as_str().unicode_len();
        if n == 0 {
            return;
        }
        self.before.push(self.after.as_str().get_char(0));
        self.after = substring(self.after.as_str(), 1, n);
        assert(self@ =~= moved_right(old(self)@));
    }

    pub fn to_line_start(&mut self)
        ensures
            final(self)@ == at_start(old(self)@),
    {
        self.after = self.text();
        self.before = String::new();
        assert(self@ =~= at_start(old(self)@));
    }

    pub fn to_line_end(&mut self)
        ensures
            final(self)@ == at_end(old(self)@),
    {
        self.before = self.text();
        self.after = String::new();
        assert(self@ =~= at_end(old(self)@));
    }

    /// Tells whether there was something to kill.
    pub fn kill_to_end(&mut self) -> (r: bool)
        ensures
            final(self)@ == killed(old(self)@),
            r == (old(self)@.after.len() > 0),
    {
        let r: bool = self.after.as_str().unicode_len() > 0;
        self.after = String::new();
        assert(self@ =~= killed(old(self)@));
        r
    }
}

// ---------------------------------------------------------------------
// Character boundaries
// ---------------------------------------------------------------------

/// The place of the character that ends at `byte_pos`; zero at the start.
pub fn prev_char_boundary(s: &str, byte_pos: usize) -> (r: usize)
    requires
        byte_pos <= vstd::utf8::encode_utf8(s@).len(),
    ensures
        vstd::utf8::is_char_boundary(vstd::utf8::encode_utf8(s@), r as int),
        byte_pos == 0 ==> r == 0,
        byte_pos > 0 ==> r < byte_pos,
        forall|i: int|
            r < i < byte_pos ==> !#[trigger] vstd::utf8::is_char_boundary(vstd::utf8::encode_utf8(s@), i),
{
    proof {
        vstd::utf8::encode_utf8_valid_utf8(s@);
        vstd::utf8::is_char_boundary_start_end_of_seq(vstd::utf8::encode_utf8(s@));
    }
    if byte_pos == 0 {
        return 0;
    }
    let mut i: usize = byte_pos - 1;
    while i > 0 && !s.is_char_boundary(i)
        invariant
            i < byte_pos,
            byte_pos <= vstd::utf8::encode_utf8(s@).len(),
            forall|j: int|
                i < j < byte_pos ==> !#[trigger] vstd::utf8::is_char_boundary(vstd::utf8::encode_utf8(s@), j),
        decreases i,
    {
        i = i - 1;
    }
    i
}

/// The place behind the character at `byte_pos`; `byte_pos` itself at the
/// end.
pub fn next_char_boundary(s: &str, byte_pos: usize) -> (r: usize)
    requires
        byte_pos <= vstd::utf8::encode_utf8(s@).len() <= usize::MAX,
    ensures
        byte_pos < vstd::utf8::encode_utf8(s@).len() ==> vstd::utf8::is_char_boundary(
            vstd::utf8::encode_utf8(s@),
            r as int,
        ) && byte_pos < r <= vstd::utf8::encode_utf8(s@).len(),
        byte_pos == vstd::utf8::encode_utf8(s@).len() ==> r == byte_pos,
        forall|i: int|
            byte_pos < i < r ==> !#[trigger] vstd::utf8::is_char_boundary(vstd::utf8::encode_utf8(s@), i),
{
    proof {
        vstd::utf8::encode_utf8_valid_utf8(s@);
        vstd::utf8::is_char_boundary_start_end_of_seq(vstd::utf8::encode_utf8(s@));
    }
    let n: usize = s.len();
    if byte_pos >= n {
        return byte_pos;
    }
    let mut i: usize = byte_pos + 1;
    while i < n && !s.is_char_boundary(i)
        invariant
            byte_pos < i <= n,
            n == vstd::utf8::encode_utf8(s@).len(),
            forall|j: int|
                byte_pos < j < i ==> !#[trigger] vstd::utf8::is_char_boundary(vstd::utf8::encode_utf8(s@), j),
        decreases n - i,
    {
        i = i + 1;
    }
    i
}

// ---------------------------------------------------------------------
// Laws
// ---------------------------------------------------------------------

/// The keys of an input line work at its cursor: typing puts a character
/// before it, the delete keys take the character before or behind it,
/// killing takes all that is behind it, and a step moves it over one.
pub proof fn keys_work_at_the_cursor(i: InputView, c: char)
    ensures
        ({
            let n = i.before.len() as int;
            let t = i.before + i.after;
            &&& typed(i, c).text() =~= i.before.push(c) + i.after
            &&& typed(i, c).before.len() == n + 1
            &&& n > 0 ==> backspaced(i).text() =~= t.remove(n - 1) && backspaced(i).before.len() == n
                - 1
            &&& n == 0 ==> backspaced(i) == i
            &&& i.after.len() > 0 ==> deleted(i).text() =~= t.remove(n) && deleted(i).before.len()
                == n
            &&& i.after.len() == 0 ==> deleted(i) == i
            &&& killed(i).text() =~= t.subrange(0, n)
            &&& killed(i).before.len() == n
            &&& n > 0 ==> moved_left(i).before.len() == n - 1
            &&& n == 0 ==> moved_left(i) == i
            &&& i.after.len() > 0 ==> moved_right(i).before.len() == n + 1
            &&& i.after.len() == 0 ==> moved_right(i) == i
            &&& at_start(i).before.len() == 0
            &&& at_end(i).after.len() == 0
        }),
{
}

} // verus!
