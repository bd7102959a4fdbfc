//! Small text utilities: string joining, an indenting formatter for
//! rendered output, and binary-string helpers.

use vstd::prelude::*;
use vstd::string::StrSliceExecFns;
use vstd::string::StringExecFns;

verus! {

/// Relies on String::push: appends exactly one character to the string.
#[verifier::external_body]
pub(crate) fn push_char(s: &mut String, c: char)
    ensures
        final(s)@ == old(s)@.push(c),
{
    s.push(c)
}

/// The model of a sequence of strings: each string as its characters.
pub open spec fn strings_view(s: Seq<String>) -> Seq<Seq<char>>
    decreases s,
{
    if s.len() == 0 {
        Seq::empty()
    } else {
        strings_view(s.drop_last()).push(s.last()@)
    }
}

/// The model of a string sequence has the same length.
pub proof fn lemma_strings_view_len(s: Seq<String>)
    ensures
        strings_view(s).len() == s.len(),
    decreases s,
{
    if s.len() > 0 {
        lemma_strings_view_len(s.drop_last());
    }
}

/// The model of a string sequence is the view taken elementwise.
pub proof fn lemma_strings_view_index(s: Seq<String>, i: int)
    requires
        0 <= i < s.len(),
    ensures
        strings_view(s).len() == s.len(),
        strings_view(s)[i] == s[i]@,
    decreases s,
{
    lemma_strings_view_len(s);
    if i < s.len() - 1 {
        lemma_strings_view_index(s.drop_last(), i);
    }
}

/// The elements joined with `sep` between consecutive elements.
pub open spec fn spec_join(elems: Seq<Seq<char>>, sep: Seq<char>) -> Seq<char>
    decreases elems,
{
    if elems.len() == 0 {
        Seq::empty()
    } else if elems.len() == 1 {
        elems[0]
    } else {
        spec_join(elems.drop_last(), sep) + sep + elems.last()
    }
}

/// Joins the elements with `sep` between consecutive elements.
#[verifier::loop_isolation(false)]
pub fn splice(elems: &Vec<String>, sep: &str) -> (r: String)
    ensures
        r@ == spec_join(strings_view(elems@), sep@),
{
    let ghost views = strings_view(elems@);
    proof {
        lemma_strings_view_len(elems@);
        assert forall|j: int| 0 <= j < views.len() implies #[trigger] views[j] == elems@[j]@ by {
            lemma_strings_view_index(elems@, j);
        }
    }
    let mut r = String::new();
    let mut i: usize = 0;
    while i < elems.len()
        invariant
            i <= elems@.len(),
            r@ == spec_join(views.take(i as int), sep@),
        decreases elems.len() - i,
    {
        if i > 0 {
            r.append(sep);
        }
        r.append(elems[i].as_str());
        proof {
            assert(views.take(i + 1).drop_last() =~= views.take(i as int));
            assert(views.take(i + 1).last() == views[i as int]);
        }
        i = i + 1;
    }
    proof {
        assert(views.take(i as int) =~= views);
    }
    r
}

/// The characters of a bit sequence, most significant bit first: the
/// reverse of the input, with `true` rendered as `'1'` and `false` as `'0'`.
pub open spec fn spec_binary_string(x: Seq<bool>) -> Seq<char> {
    x.reverse().map_values(|b: bool| if b { '1' } else { '0' })
}

/// Renders a bit sequence, most significant (last) bit first.
pub fn binary_string(x: &Vec<bool>) -> (r: String)
    ensures
        r@ == spec_binary_string(x@),
{
    let mut r = String::new();
    let mut i: usize = x.len();
    while i > 0
        invariant
            i <= x@.len(),
            r@.len() == x@.len() - i,
            forall|j: int|
                0 <= j < r@.len() ==> #[trigger] r@[j] == (if x@[x@.len() - 1 - j] {
                    '1'
                } else {
                    '0'
                }),
        decreases i,
    {
        i = i - 1;
        if x[i] {
            push_char(&mut r, '1');
        } else {
            push_char(&mut r, '0');
        }
    }
    proof {
        assert(r@ =~= spec_binary_string(x@));
    }
    r
}

/// A text formatter that tracks brace depth and indents each new line by
/// three spaces per open brace; used when rendering compiled objects.
#[derive(Debug)]
pub struct IndentingFormatter {
    buffer: Vec<char>,
    indent: i32,
}

/// Number of trailing spaces to trim before a closing brace: at most three.
pub open spec fn spec_trailing_spaces(buffer: Seq<char>) -> int {
    if buffer.len() >= 1 && buffer.last() == ' ' {
        if buffer.len() >= 2 && buffer[buffer.len() - 2] == ' ' {
            if buffer.len() >= 3 && buffer[buffer.len() - 3] == ' ' {
                3
            } else {
                2
            }
        } else {
            1
        }
    } else {
        0
    }
}

/// Three spaces per indent level.
pub open spec fn spec_indent_spaces(n: int) -> Seq<char>
    decreases n,
{
    if n <= 0 {
        Seq::empty()
    } else {
        spec_indent_spaces(n - 1) + seq![' ', ' ', ' ']
    }
}

/// The state of the formatter after feeding one character: an opening
/// brace deepens the indent, a closing brace trims up to three trailing
/// spaces and shallows it, and a newline appends the current indentation.
/// The depth saturates at the machine limits.
pub open spec fn spec_format_step(buffer: Seq<char>, indent: int, c: char) -> (Seq<char>, int) {
    if c == '{' {
        (buffer.push(c), if indent < i32::MAX { indent + 1 } else { indent })
    } else if c == '}' {
        let trimmed = buffer.take(buffer.len() - spec_trailing_spaces(buffer));
        (trimmed.push(c), if indent > i32::MIN { indent - 1 } else { indent })
    } else if c == '\n' {
        (
            buffer.push(c) + spec_indent_spaces(if indent > 0 {
                indent
            } else {
                0
            }),
            indent,
        )
    } else {
        (buffer.push(c), indent)
    }
}

/// The formatter state after feeding a whole string.
pub open spec fn spec_format(buffer: Seq<char>, indent: int, s: Seq<char>) -> (Seq<char>, int)
    decreases s,
{
    if s.len() == 0 {
        (buffer, indent)
    } else {
        let step = spec_format_step(buffer, indent, s[0]);
        spec_format(step.0, step.1, s.drop_first())
    }
}

impl View for IndentingFormatter {
    type V = Seq<char>;

    closed spec fn view(&self) -> Seq<char> {
        self.buffer@
    }
}

impl IndentingFormatter {
    /// The current indent depth.
    pub closed spec fn spec_indent(&self) -> int {
        self.indent as int
    }

    /// A fresh formatter with an empty buffer at depth zero.
    pub fn new() -> (r: Self)
        ensures
            r@ == Seq::<char>::empty(),
            r.spec_indent() == 0,
    {
        IndentingFormatter { buffer: Vec::new(), indent: 0 }
    }

    /// The accumulated text.
    pub fn buffer(self) -> (r: String)
        ensures
            r@ == self@,
    {
        let mut r = String::new();
        let mut i: usize = 0;
        while i < self.buffer.len()
            invariant
                i <= self.buffer@.len(),
                r@ =~= self.buffer@.take(i as int),
            decreases self.buffer.len() - i,
        {
            push_char(&mut r, self.buffer[i]);
            proof {
                assert(self.buffer@.take(i + 1) =~= self.buffer@.take(i as int).push(
                    self.buffer@[i as int],
                ));
            }
            i = i + 1;
        }
        proof {
            assert(self.buffer@.take(i as int) =~= self.buffer@);
        }
        r
    }

    /// Number of characters written so far.  The count is in characters,
    /// not bytes; the rendered hardware output is ASCII, where the two
    /// coincide.
    pub fn location(&self) -> (r: usize)
        ensures
            r == self@.len(),
    {
        self.buffer.len()
    }

    /// Appends `s`, indenting after newlines, deepening on `{`, and
    /// shallowing (and trimming up to three trailing spaces) on `}`.
    #[verifier::loop_isolation(false)]
    pub fn write(&mut self, s: &str)
        ensures
            final(self)@ == spec_format(old(self)@, old(self).spec_indent(), s@).0,
            final(self).spec_indent() == spec_format(old(self)@, old(self).spec_indent(), s@).1,
    {
        let n = s.unicode_len();
        let mut i: usize = 0;
        proof {
            assert(s@.skip(0) =~= s@);
        }
        while i < n
            invariant
                i <= n,
                spec_format(self@, self.spec_indent(), s@.skip(i as int)) == spec_format(
                    old(self)@,
                    old(self).spec_indent(),
                    s@,
                ),
            decreases n - i,
        {
            proof {
                assert(s@.skip(i as int)[0] == s@[i as int]);
                assert(s@.skip(i as int).drop_first() =~= s@.skip(i + 1));
            }
            let c = s.get_char(i);
            self.write_char(c);
            i = i + 1;
        }
        proof {
            assert(s@.skip(i as int) =~= Seq::<char>::empty());
        }
    }

    /// Feeds one character through the formatter.
    #[verifier::loop_isolation(false)]
    fn write_char(&mut self, c: char)
        ensures
            final(self)@ == spec_format_step(old(self)@, old(self).spec_indent(), c).0,
            final(self).spec_indent() == spec_format_step(old(self)@, old(self).spec_indent(), c).1,
    {
        if c == '{' {
            self.buffer.push(c);
            if self.indent < i32::MAX {
                self.indent = self.indent + 1;
            }
        } else if c == '}' {
            let backup = self.trailing_spaces();
            let ghost pre = self.buffer@;
            let mut b: usize = backup;
            while b > 0
                invariant
                    b <= backup,
                    self.indent == old(self).spec_indent(),
                    self.buffer@ == pre.take(pre.len() - (backup - b)),
                decreases b,
            {
                self.buffer.pop();
                proof {
                    assert(pre.take(pre.len() - (backup - b)).drop_last() =~= pre.take(
                        pre.len() - (backup - b) - 1,
                    ));
                }
                b = b - 1;
            }
            if self.indent > i32::MIN {
                self.indent = self.indent - 1;
            }
            self.buffer.push(c);
        } else if c == '\n' {
            self.buffer.push(c);
            let ghost target = if self.indent > 0 {
                self.indent as int
            } else {
                0
            };
            let ghost base = self.buffer@;
            let mut k: i32 = 0;
            while k < self.indent
                invariant
                    0 <= k,
                    k <= target,
                    self.indent == old(self).spec_indent(),
                    self.buffer@ == base + spec_indent_spaces(k as int),
                decreases self.indent - k,
            {
                self.buffer.push(' ');
                self.buffer.push(' ');
                self.buffer.push(' ');
                proof {
                    assert(self.buffer@ =~= base + spec_indent_spaces(k + 1));
                }
                k = k + 1;
            }
            proof {
                assert(self.buffer@ =~= base + spec_indent_spaces(target));
            }
        } else {
            self.buffer.push(c);
        }
    }

    /// Number of trailing spaces in the buffer, capped at three.
    fn trailing_spaces(&self) -> (r: usize)
        ensures
            r == spec_trailing_spaces(self@),
            r <= self@.len(),
    {
        let n = self.buffer.len();
        let mut r: usize = 0;
        if n >= 1 && self.buffer[n - 1] == ' ' {
            if n >= 2 && self.buffer[n - 2] == ' ' {
                if n >= 3 && self.buffer[n - 3] == ' ' {
                    r = 3;
                } else {
                    r = 2;
                }
            } else {
                r = 1;
            }
        }
        r
    }
}

impl Default for IndentingFormatter {
    /// Same as [`IndentingFormatter::new`].
    fn default() -> (r: Self)
        ensures
            r@ == Seq::<char>::empty(),
            r.spec_indent() == 0,
    {
        IndentingFormatter { buffer: Vec::new(), indent: 0 }
    }
}

} // verus!
