//! The LaTeX-like notation: command names, brace-delimited arguments, the
//! scanner that finds the next command in a text, and the filter that cuts a
//! text into plain runs and ruby annotations.

use vstd::prelude::*;
use vstd::string::*;
use vstd::utf8::*;
use crate::{texts, Filtered, Ruby, RubyView};
use crate::text::{
    between, head, lemma_boundary_add, lemma_boundary_after_ascii, lemma_boundary_after_scalar,
    suffix, tail, BACKSLASH, BAR, CLOSE_BRACE, OPEN_BRACE,
};

verus! {

broadcast use {
    vstd::utf8::encode_utf8_valid_utf8,
    vstd::utf8::is_char_boundary_start_end_of_seq,
};

/// Whether the byte just before offset `i` of `b` starts an escape: it is a
/// backslash that is not escaped itself.
pub open spec fn escaped_before(b: Seq<u8>, i: int) -> bool
    decreases i,
{
    if i <= 0 || i > b.len() {
        false
    } else {
        b[i - 1] == BACKSLASH && !escaped_before(b, i - 1)
    }
}

/// Whether offset `i` of `b` holds a closing brace that no backslash escapes.
pub open spec fn closes_at(b: Seq<u8>, i: int) -> bool {
    0 <= i < b.len() && b[i] == CLOSE_BRACE && !escaped_before(b, i)
}

/// The first offset at or after `from` at which `b` holds an unescaped closing
/// brace, escapes being counted from the start of `b`.
pub open spec fn first_close(b: Seq<u8>, from: int) -> Option<int>
    decreases b.len() - from,
{
    if from < 0 || from >= b.len() {
        None
    } else if closes_at(b, from) {
        Some(from)
    } else {
        first_close(b, from + 1)
    }
}

/// The offset of the first unescaped closing brace of `b`.
pub open spec fn close_brace(b: Seq<u8>) -> Option<int> {
    first_close(b, 0)
}

/// `first_close` is the least closing offset at or after `from`, and is `None`
/// exactly when there is none.
pub proof fn lemma_first_close(b: Seq<u8>, from: int)
    requires
        0 <= from,
    ensures
        match first_close(b, from) {
            Some(i) => from <= i && closes_at(b, i) && forall|j: int|
                from <= j < i ==> !closes_at(b, j),
            None => forall|j: int| from <= j ==> !closes_at(b, j),
        },
    decreases b.len() - from,
{
    if from < b.len() && !closes_at(b, from) {
        lemma_first_close(b, from + 1);
    }
}

/// Finds the first closing brace of `s` that is not escaped by a backslash.
pub fn find_close_brace(s: &str) -> (r: Option<usize>)
    ensures
        match r {
            Some(i) => close_brace(s.spec_bytes()) == Some(i as int),
            None => close_brace(s.spec_bytes()) is None,
        },
{
    let bytes = s.as_bytes();
    let n: usize = bytes.len();
    let mut is_escaped = false;
    let mut i: usize = 0;
    while i < n
        invariant
            bytes@ == s.spec_bytes(),
            n == bytes@.len(),
            i <= n,
            is_escaped == escaped_before(bytes@, i as int),
            first_close(bytes@, 0) == first_close(bytes@, i as int),
        decreases n - i,
    {
        let c = bytes[i];
        if c == BACKSLASH && !is_escaped {
            is_escaped = true;
        } else if c == CLOSE_BRACE && !is_escaped {
            return Some(i);
        } else {
            is_escaped = false;
        }
        i += 1;
    }
    None
}

/// Where the argument that starts at offset `head` of `b` ends: the offset of
/// its closing brace. There is an argument only if `b` holds an opening brace
/// at `head` and an unescaped closing brace after it.
pub open spec fn argument_end(b: Seq<u8>, head: int) -> Option<int> {
    if 0 <= head < b.len() && b[head] == OPEN_BRACE {
        match close_brace(suffix(b, head)) {
            Some(e) => Some(head + e),
            None => None,
        }
    } else {
        None
    }
}

/// An argument ends after its opening brace and within the text.
pub proof fn lemma_argument_end(b: Seq<u8>, head: int)
    ensures
        match argument_end(b, head) {
            Some(e) => 0 <= head < e < b.len() && b[head] == OPEN_BRACE && b[e] == CLOSE_BRACE,
            None => true,
        },
{
    if 0 <= head < b.len() {
        lemma_first_close(suffix(b, head), 0);
    }
}

/// The first `n` arguments of `b` read one after another from offset `head`,
/// with the offset after the last of them, if there are that many.
pub open spec fn arguments(b: Seq<u8>, head: int, n: nat) -> Option<(Seq<Seq<u8>>, int)>
    decreases n,
{
    if n == 0 {
        Some((Seq::empty(), head))
    } else {
        match arguments(b, head, (n - 1) as nat) {
            Some((args, h)) => match argument_end(b, h) {
                Some(e) => Some((args.push(b.subrange(h + 1, e)), e + 1)),
                None => None,
            },
            None => None,
        }
    }
}

/// Exactly `n` arguments at offset `head` of `b`: `n` arguments can be read
/// and no opening brace follows the last of them.
pub open spec fn exactly(b: Seq<u8>, head: int, n: nat) -> Option<(Seq<Seq<u8>>, int)> {
    match arguments(b, head, n) {
        Some((args, h)) => if 0 <= h < b.len() && b[h] == OPEN_BRACE {
            None
        } else {
            Some((args, h))
        },
        None => None,
    }
}

/// Arguments that were read lie between `head` and the offset reached, and
/// there are `n` of them.
pub proof fn lemma_arguments(b: Seq<u8>, head: int, n: nat)
    requires
        0 <= head <= b.len(),
    ensures
        match arguments(b, head, n) {
            Some((args, h)) => args.len() == n && head <= h <= b.len() && (n > 0 ==> head < h),
            None => true,
        },
    decreases n,
{
    if n > 0 {
        lemma_arguments(b, head, (n - 1) as nat);
        match arguments(b, head, (n - 1) as nat) {
            Some((args, h)) => {
                lemma_argument_end(b, h);
            },
            None => {},
        }
    }
}

/// A cursor that reads `{...}` arguments from a text, one after another.
#[derive(Debug)]
pub struct Arguments<'a> {
    s: &'a str,
    head: usize,
}

impl<'a> Clone for Arguments<'a> {
    fn clone(&self) -> (r: Self)
        ensures
            r.text() == self.text(),
            r.position() == self.position(),
    {
        proof {
            use_type_invariant(self);
        }
        Self { s: self.s, head: self.head }
    }
}

impl<'a> Arguments<'a> {
    #[verifier::type_invariant]
    spec fn well_formed(self) -> bool {
        self.head <= self.s.spec_bytes().len() && is_char_boundary(
            self.s.spec_bytes(),
            self.head as int,
        )
    }

    /// The bytes of the text that is read.
    pub closed spec fn text(self) -> Seq<u8> {
        self.s.spec_bytes()
    }

    /// The offset at which the next argument is looked for.
    pub closed spec fn position(self) -> int {
        self.head as int
    }

    /// A cursor at the start of `s`.
    pub fn new(s: &'a str) -> (r: Self)
        ensures
            r.text() == s.spec_bytes(),
            r.position() == 0,
    {
        Self { s: s, head: 0 }
    }

    /// A cursor at byte offset `pos` of `s`, which must be a character
    /// boundary of `s`.
    pub fn with_position(s: &'a str, pos: usize) -> (r: Self)
        requires
            pos <= s.spec_bytes().len(),
            is_char_boundary(s.spec_bytes(), pos as int),
        ensures
            r.text() == s.spec_bytes(),
            r.position() == pos,
    {
        Self { s: s, head: pos }
    }

    /// The text that is read, whole.
    pub fn into_inner(self) -> (r: &'a str)
        ensures
            r.spec_bytes() == self.text(),
    {
        self.s
    }

    /// The offset at which the next argument is looked for.
    pub fn current_head(&self) -> (r: usize)
        ensures
            r == self.position(),
    {
        self.head
    }

    /// Reads the argument at the cursor. On success the content between the
    /// braces is returned and the cursor stands after the closing brace;
    /// otherwise the cursor stays.
    pub fn next(&mut self) -> (r: Option<&'a str>)
        ensures
            final(self).text() == old(self).text(),
            match argument_end(old(self).text(), old(self).position()) {
                Some(e) => r is Some && r.unwrap().spec_bytes() == old(self).text().subrange(
                    old(self).position() + 1,
                    e,
                ) && final(self).position() == e + 1,
                None => r is None && final(self).position() == old(self).position(),
            },
    {
        proof {
            use_type_invariant(&*self);
        }
        let ghost b = self.s.spec_bytes();
        let bytes = self.s.as_bytes();
        if self.head >= bytes.len() || bytes[self.head] != OPEN_BRACE {
            return None;
        }
        let rest = tail(self.s, self.head);
        match find_close_brace(rest) {
            None => None,
            Some(end) => {
                proof {
                    lemma_first_close(rest.spec_bytes(), 0);
                    lemma_boundary_after_ascii(rest.spec_bytes(), 0);
                    lemma_boundary_after_ascii(rest.spec_bytes(), end as int);
                    lemma_boundary_add(b, self.head as int, end + 1);
                    assert(rest.spec_bytes().subrange(1, end as int) =~= b.subrange(
                        self.head + 1,
                        self.head + end,
                    ));
                }
                let arg = between(rest, 1, end);
                self.head = self.head + end + 1;
                Some(arg)
            },
        }
    }

    /// Reads exactly `n` arguments: `n` arguments one after another, with no
    /// opening brace after the last. On success the cursor stands after the
    /// last argument; otherwise it stays.
    pub fn read_exactly(&mut self, n: usize) -> (r: Option<Vec<&'a str>>)
        ensures
            final(self).text() == old(self).text(),
            match exactly(old(self).text(), old(self).position(), n as nat) {
                Some((args, h)) => r is Some && texts(r.unwrap()@) == args
                    && final(self).position() == h,
                None => r is None && final(self).position() == old(self).position(),
            },
    {
        proof {
            use_type_invariant(&*self);
        }
        let start = self.head;
        let ghost b = self.s.spec_bytes();
        let mut found: Vec<&'a str> = Vec::new();
        let mut i: usize = 0;
        while i < n
            invariant
                i <= n,
                self.text() == b,
                b == old(self).text(),
                start == old(self).position(),
                start <= b.len(),
                is_char_boundary(b, start as int),
                arguments(b, start as int, i as nat) == Some((texts(found@), self.position())),
            decreases n - i,
        {
            let ghost before = texts(found@);
            match self.next() {
                Some(arg) => {
                    found.push(arg);
                    proof {
                        assert(texts(found@) =~= before.push(arg.spec_bytes()));
                    }
                },
                None => {
                    proof {
                        lemma_arguments_stop(b, start as int, i as nat, n as nat);
                    }
                    self.head = start;
                    return None;
                },
            }
            i += 1;
        }
        let bytes = self.s.as_bytes();
        proof {
            use_type_invariant(&*self);
        }
        if self.head < bytes.len() && bytes[self.head] == OPEN_BRACE {
            self.head = start;
            return None;
        }
        Some(found)
    }
}

/// Where fewer than `n` arguments can be read, `n` cannot.
pub proof fn lemma_arguments_stop(b: Seq<u8>, head: int, k: nat, n: nat)
    requires
        k < n,
        arguments(b, head, k + 1) is None,
    ensures
        arguments(b, head, n) is None,
    decreases n,
{
    if n > k + 1 {
        lemma_arguments_stop(b, head, k, (n - 1) as nat);
    }
}

/// Whether `c` is an ASCII letter.
pub open spec fn is_alphabetic(c: u8) -> bool {
    (0x41 <= c <= 0x5a) || (0x61 <= c <= 0x7a)
}

/// Whether `c` is an ASCII letter or digit.
pub open spec fn is_alphanumeric(c: u8) -> bool {
    is_alphabetic(c) || (0x30 <= c <= 0x39)
}

/// The end of the run of ASCII letters that starts at offset `from` of `b`.
pub open spec fn letters_end(b: Seq<u8>, from: int) -> int
    decreases b.len() - from,
{
    if 0 <= from < b.len() && is_alphabetic(b[from]) {
        letters_end(b, from + 1)
    } else {
        from
    }
}

/// The end of the run of ASCII letters and digits that starts at offset `from`
/// of `b`.
pub open spec fn alphanumerics_end(b: Seq<u8>, from: int) -> int
    decreases b.len() - from,
{
    if 0 <= from < b.len() && is_alphanumeric(b[from]) {
        alphanumerics_end(b, from + 1)
    } else {
        from
    }
}

/// The run of letters from `from` ends within the text, holds letters only,
/// and is followed by no letter.
pub proof fn lemma_letters_end(b: Seq<u8>, from: int)
    requires
        0 <= from <= b.len(),
    ensures
        from <= letters_end(b, from) <= b.len(),
        forall|j: int| from <= j < letters_end(b, from) ==> is_alphabetic(b[j]),
        letters_end(b, from) < b.len() ==> !is_alphabetic(b[letters_end(b, from)]),
    decreases b.len() - from,
{
    if from < b.len() && is_alphabetic(b[from]) {
        lemma_letters_end(b, from + 1);
    }
}

/// Where the command name at the start of `b` ends. There is a name only if
/// `b` starts with a backslash and a letter; the name is the run of letters.
pub open spec fn command_name_end(b: Seq<u8>) -> Option<int> {
    if b.len() >= 2 && b[0] == BACKSLASH && is_alphabetic(b[1]) {
        Some(letters_end(b, 2))
    } else {
        None
    }
}

fn is_ascii_alphabetic(c: u8) -> (r: bool)
    ensures
        r == is_alphabetic(c),
{
    (0x41 <= c && c <= 0x5a) || (0x61 <= c && c <= 0x7a)
}

fn is_ascii_alphanumeric(c: u8) -> (r: bool)
    ensures
        r == is_alphanumeric(c),
{
    is_ascii_alphabetic(c) || (0x30 <= c && c <= 0x39)
}

/// Reads a command name, a backslash and one or more ASCII letters, at the
/// start of `s`, and returns the offset at which it ends.
pub fn parse_command_name(s: &str) -> (r: Option<usize>)
    ensures
        match r {
            Some(e) => command_name_end(s.spec_bytes()) == Some(e as int),
            None => command_name_end(s.spec_bytes()) is None,
        },
{
    let bytes = s.as_bytes();
    let n: usize = bytes.len();
    if n < 2 || bytes[0] != BACKSLASH || !is_ascii_alphabetic(bytes[1]) {
        return None;
    }
    let mut i: usize = 2;
    while i < n && is_ascii_alphabetic(bytes[i])
        invariant
            n == bytes@.len(),
            2 <= i <= n,
            letters_end(bytes@, 2) == letters_end(bytes@, i as int),
        decreases n - i,
    {
        i += 1;
    }
    Some(i)
}

/// Splits `s` after a macro name: a backslash and the ASCII letters and digits
/// that follow it. Returns the name without the backslash and the rest of
/// `s`, or no name and `s` itself where `s` does not start with a backslash.
pub fn match_macro_name<'a>(s: &'a str) -> (r: (Option<&'a str>, &'a str))
    ensures
        ({
            let b = s.spec_bytes();
            if b.len() > 0 && b[0] == BACKSLASH {
                let e = alphanumerics_end(b, 1);
                r.0 is Some && r.0.unwrap().spec_bytes() == b.subrange(1, e)
                    && r.1.spec_bytes() == suffix(b, e)
            } else {
                r.0 is None && r.1.spec_bytes() == b
            }
        }),
{
    let bytes = s.as_bytes();
    let n: usize = bytes.len();
    if n == 0 || bytes[0] != BACKSLASH {
        return (None, s);
    }
    let mut i: usize = 1;
    while i < n && is_ascii_alphanumeric(bytes[i])
        invariant
            bytes@ == s.spec_bytes(),
            n == bytes@.len(),
            1 <= i <= n,
            bytes@[i - 1] < 0x80,
            alphanumerics_end(bytes@, 1) == alphanumerics_end(bytes@, i as int),
        decreases n - i,
    {
        i += 1;
    }
    proof {
        lemma_boundary_after_ascii(bytes@, 0);
        lemma_boundary_after_ascii(bytes@, i - 1);
    }
    (Some(between(s, 1, i)), tail(s, i))
}

/// Whether `a` and `b` are the same text.
pub fn same_text(a: &str, b: &str) -> (r: bool)
    ensures
        r == (a.spec_bytes() == b.spec_bytes()),
{
    let x = a.as_bytes();
    let y = b.as_bytes();
    if x.len() != y.len() {
        return false;
    }
    let n: usize = x.len();
    let mut i: usize = 0;
    while i < n
        invariant
            x@ == a.spec_bytes(),
            y@ == b.spec_bytes(),
            n == x@.len(),
            n == y@.len(),
            i <= n,
            x@.subrange(0, i as int) == y@.subrange(0, i as int),
        decreases n - i,
    {
        if x[i] != y[i] {
            return false;
        }
        proof {
            assert(x@.subrange(0, i + 1) =~= x@.subrange(0, i as int).push(x@[i as int]));
            assert(y@.subrange(0, i + 1) =~= y@.subrange(0, i as int).push(y@[i as int]));
        }
        i += 1;
    }
    proof {
        assert(x@ =~= x@.subrange(0, n as int));
        assert(y@ =~= y@.subrange(0, n as int));
    }
    true
}

/// A table that gives each command name it knows the number of arguments the
/// command takes.
pub trait ArityTable {
    /// The arities registered, by the bytes of the command's name.
    spec fn arities(&self) -> Map<Seq<u8>, usize>;

    /// Looks `name` up.
    fn get_arity(&self, name: &str) -> (r: Option<usize>)
        ensures
            r == arity_of(self.arities(), name.spec_bytes()),
    ;
}

/// The arity that `arities` registers for `name`, if any.
pub open spec fn arity_of(arities: Map<Seq<u8>, usize>, name: Seq<u8>) -> Option<usize> {
    if arities.contains_key(name) {
        Some(arities[name])
    } else {
        None
    }
}

/// The arity of the first of `entries` that is named `name`.
pub open spec fn first_arity(entries: Seq<(&str, usize)>, name: Seq<u8>) -> Option<usize>
    decreases entries.len(),
{
    if entries.len() == 0 {
        None
    } else if entries[0].0.spec_bytes() == name {
        Some(entries[0].1)
    } else {
        first_arity(entries.drop_first(), name)
    }
}

impl<'a> ArityTable for [(&'a str, usize)] {
    /// A name has the arity of the first entry that bears it.
    open spec fn arities(&self) -> Map<Seq<u8>, usize> {
        Map::new(
            |name: Seq<u8>| first_arity(self@, name) is Some,
            |name: Seq<u8>| first_arity(self@, name).unwrap(),
        )
    }

    fn get_arity(&self, name: &str) -> (r: Option<usize>) {
        let n: usize = self.len();
        let mut i: usize = 0;
        proof {
            assert(self@.subrange(0, n as int) =~= self@);
        }
        while i < n
            invariant
                n == self@.len(),
                i <= n,
                first_arity(self@, name.spec_bytes()) == first_arity(
                    self@.subrange(i as int, n as int),
                    name.spec_bytes(),
                ),
            decreases n - i,
        {
            let entry = &self[i];
            if same_text(entry.0, name) {
                return Some(entry.1);
            }
            proof {
                assert(self@.subrange(i as int, n as int).drop_first() =~= self@.subrange(
                    i + 1,
                    n as int,
                ));
            }
            i += 1;
        }
        None
    }
}

/// A command as it stands in a text: its name and its arguments.
#[derive(Debug, Clone, PartialEq)]
pub struct Command<'a> {
    pub name: &'a str,
    pub args: Vec<&'a str>,
}

/// What a command says: the bytes of its name and of each argument.
pub ghost struct CommandView {
    pub name: Seq<u8>,
    pub args: Seq<Seq<u8>>,
}

impl<'a> View for Command<'a> {
    type V = CommandView;

    open spec fn view(&self) -> CommandView {
        CommandView { name: self.name.spec_bytes(), args: texts(self.args@) }
    }
}

/// The command at the start of `b`, with the offset after its last argument;
/// or, where there is none, the number of bytes after which to look again.
///
/// Where `b` starts with no command name, that is the length of its first
/// character (1 for an empty text). Where the name is not in `arities`, or is
/// not followed by exactly as many arguments as `arities` asks for, it is 1.
pub open spec fn command_at_start(b: Seq<u8>, arities: Map<Seq<u8>, usize>) -> Result<
    (int, CommandView),
    int,
> {
    match command_name_end(b) {
        None => Err(
            if b.len() == 0 {
                1
            } else {
                length_of_first_scalar(b)
            },
        ),
        Some(name_end) => match arity_of(arities, b.subrange(1, name_end)) {
            None => Err(1),
            Some(arity) => match exactly(b, name_end, arity as nat) {
                None => Err(1),
                Some((args, end)) => Ok(
                    (end, CommandView { name: b.subrange(1, name_end), args: args }),
                ),
            },
        },
    }
}

/// The length of the character whose encoding starts with the byte `first`.
fn char_width(first: u8) -> (r: usize)
    ensures
        r == length_of_first_codepoint(seq![first]),
        1 <= r <= 4,
{
    if first < 0x80 {
        1
    } else if 0xc0 <= first && first < 0xe0 {
        2
    } else if 0xe0 <= first && first < 0xf0 {
        3
    } else {
        4
    }
}

/// Reads the command at the start of `s`: a name that `arity_table` knows,
/// followed by exactly as many arguments as it asks for. Returns the offset
/// after the command and the command, or the number of bytes after which the
/// caller should try again.
pub fn parse_command<'a, T: ArityTable + ?Sized>(s: &'a str, arity_table: &T) -> (r: Result<
    (usize, Command<'a>),
    usize,
>)
    ensures
        match command_at_start(s.spec_bytes(), arity_table.arities()) {
            Ok((end, command)) => r is Ok && r.unwrap().0 == end && r.unwrap().1@ == command,
            Err(retry) => r == Err::<(usize, Command<'a>), usize>(retry as usize) && 1 <= retry
                <= 4,
        },
{
    let ghost b = s.spec_bytes();
    let cmd_name_end = match parse_command_name(s) {
        Some(pos) => pos,
        None => {
            let bytes = s.as_bytes();
            if bytes.len() == 0 {
                return Err(1);
            }
            return Err(char_width(bytes[0]));
        },
    };
    proof {
        lemma_letters_end(b, 2);
        lemma_boundary_after_ascii(b, 0);
        lemma_boundary_after_ascii(b, cmd_name_end - 1);
    }
    let name = between(s, 1, cmd_name_end);
    let arity = match arity_table.get_arity(name) {
        Some(arity) => arity,
        None => {
            return Err(1);
        },
    };
    let mut args = Arguments::with_position(s, cmd_name_end);
    match args.read_exactly(arity) {
        None => Err(1),
        Some(args_vec) => {
            let cmd = Command { name: name, args: args_vec };
            Ok((args.current_head(), cmd))
        },
    }
}

/// A command at the start of `b` starts with a backslash, is at least two
/// bytes long, lies within `b`, ends with an ASCII byte, and has as many
/// arguments as `arities` gives its name. Where there is none, the text is to
/// be tried again one to four bytes further.
pub proof fn lemma_command_at_start(b: Seq<u8>, arities: Map<Seq<u8>, usize>)
    ensures
        match command_at_start(b, arities) {
            Ok((end, command)) => 2 <= end <= b.len() && b[0] == BACKSLASH && b[end - 1] < 0x80
                && arity_of(arities, command.name) == Some(command.args.len() as usize),
            Err(retry) => 1 <= retry <= 4,
        },
{
    match command_name_end(b) {
        None => {},
        Some(name_end) => {
            lemma_letters_end(b, 2);
            match arity_of(arities, b.subrange(1, name_end)) {
                None => {},
                Some(arity) => {
                    lemma_arguments(b, name_end, arity as nat);
                    if arity > 0 {
                        match arguments(b, name_end, (arity - 1) as nat) {
                            Some((args, h)) => {
                                lemma_arguments(b, name_end, (arity - 1) as nat);
                                lemma_argument_end(b, h);
                            },
                            None => {},
                        }
                    }
                },
            }
        },
    }
}

/// The next command of `b` at or after offset `index`: where it starts, where
/// it ends, and what it says. The text is tried at `index`; where no command
/// stands there, it is tried again as many bytes further as
/// [`command_at_start`] says. There is none where `index` is no character
/// boundary of `b`.
pub open spec fn next_command(b: Seq<u8>, arities: Map<Seq<u8>, usize>, index: int) -> Option<
    (int, int, CommandView),
>
    recommends
        valid_utf8(b),
    decreases b.len() - index,
{
    if index < 0 || index > b.len() || !is_char_boundary(b, index) {
        None
    } else {
        match command_at_start(suffix(b, index), arities) {
            Ok((end, command)) => Some((index, index + end, command)),
            Err(retry) => if retry >= 1 && index + retry <= b.len() {
                next_command(b, arities, index + retry)
            } else {
                None
            },
        }
    }
}

/// Finds the first command of `s`, and returns the text before it, the
/// command, and the text after it.
pub fn take_next_command<'a, T: ArityTable + ?Sized>(s: &'a str, arity_table: &T) -> (r: Option<
    (&'a str, Command<'a>, &'a str),
>)
    ensures
        match next_command(s.spec_bytes(), arity_table.arities(), 0) {
            Some((start, end, command)) => r is Some && r.unwrap().0.spec_bytes()
                == s.spec_bytes().subrange(0, start) && r.unwrap().1@ == command
                && r.unwrap().2.spec_bytes() == suffix(s.spec_bytes(), end),
            None => r is None,
        },
{
    take_next_command_inner(s, arity_table, 0)
}

/// Finds the first command of `s` at or after byte offset `index`, and returns
/// the text before it, the command, and the text after it.
pub fn take_next_command_inner<'a, T: ArityTable + ?Sized>(
    s: &'a str,
    arity_table: &T,
    index: usize,
) -> (r: Option<(&'a str, Command<'a>, &'a str)>)
    ensures
        match next_command(s.spec_bytes(), arity_table.arities(), index as int) {
            Some((start, end, command)) => r is Some && r.unwrap().0.spec_bytes()
                == s.spec_bytes().subrange(0, start) && r.unwrap().1@ == command
                && r.unwrap().2.spec_bytes() == suffix(s.spec_bytes(), end),
            None => r is None,
        },
{
    let ghost b = s.spec_bytes();
    let n: usize = s.as_bytes().len();
    if index > n || !s.is_char_boundary(index) {
        return None;
    }
    let mut i: usize = index;
    while i < n
        invariant
            b == s.spec_bytes(),
            n == b.len(),
            i <= n,
            is_char_boundary(b, i as int),
            next_command(b, arity_table.arities(), index as int) == next_command(
                b,
                arity_table.arities(),
                i as int,
            ),
        decreases n - i,
    {
        let rest = tail(s, i);
        proof {
            lemma_command_at_start(rest.spec_bytes(), arity_table.arities());
        }
        match parse_command(rest, arity_table) {
            Ok((pos, cmd)) => {
                proof {
                    lemma_boundary_after_ascii(rest.spec_bytes(), pos - 1);
                    lemma_boundary_add(b, i as int, pos as int);
                    assert(suffix(rest.spec_bytes(), pos as int) =~= suffix(b, i + pos));
                }
                let before = head(s, i);
                let after = tail(rest, pos);
                return Some((before, cmd, after));
            },
            Err(retry_pos) => {
                proof {
                    if command_name_end(rest.spec_bytes()) is None {
                        lemma_boundary_after_scalar(b, i as int);
                    } else {
                        lemma_boundary_after_ascii(b, i as int);
                    }
                }
                i = i + retry_pos;
            },
        }
    }
    proof {
        assert(suffix(b, n as int).len() == 0);
        assert(command_name_end(suffix(b, n as int)) is None);
    }
    None
}

/// The first offset at or after `from` at which `b` holds a bar, or the
/// length of `b` where there is none.
pub open spec fn bar_from(b: Seq<u8>, from: int) -> int
    decreases b.len() - from,
{
    if from < 0 || from >= b.len() {
        b.len() as int
    } else if b[from] == BAR {
        from
    } else {
        bar_from(b, from + 1)
    }
}

/// The parts into which bars cut `b` from offset `from` on.
pub open spec fn split_from(b: Seq<u8>, from: int) -> Seq<Seq<u8>>
    decreases b.len() - from,
{
    let bar = bar_from(b, from);
    if 0 <= from <= bar < b.len() {
        seq![b.subrange(from, bar)] + split_from(b, bar + 1)
    } else {
        seq![suffix(b, from)]
    }
}

/// The parts into which bars cut `b`: one more than there are bars, some of
/// them empty where a bar stands first, last, or next to another.
pub open spec fn split_bar(b: Seq<u8>) -> Seq<Seq<u8>> {
    split_from(b, 0)
}

/// The characters of `b`, each as the bytes that encode it.
pub open spec fn split_chars(b: Seq<u8>) -> Seq<Seq<u8>>
    recommends
        valid_utf8(b),
    decreases b.len(),
{
    let width = length_of_first_scalar(b);
    if 1 <= width <= b.len() {
        seq![b.subrange(0, width)] + split_chars(suffix(b, width))
    } else {
        Seq::empty()
    }
}

/// Cuts `s` at each bar.
pub fn split_at_bars<'a>(s: &'a str) -> (r: Vec<&'a str>)
    ensures
        texts(r@) == split_bar(s.spec_bytes()),
{
    let ghost b = s.spec_bytes();
    let bytes = s.as_bytes();
    let n: usize = bytes.len();
    let mut parts: Vec<&'a str> = Vec::new();
    let mut start: usize = 0;
    let mut i: usize = 0;
    proof {
        assert(texts(parts@) + split_from(b, 0) =~= split_from(b, 0));
    }
    while i < n
        invariant
            b == s.spec_bytes(),
            bytes@ == b,
            n == b.len(),
            start <= i <= n,
            is_char_boundary(b, start as int),
            bar_from(b, start as int) == bar_from(b, i as int),
            split_bar(b) == texts(parts@) + split_from(b, start as int),
        decreases n - i,
    {
        if bytes[i] == BAR {
            proof {
                lemma_boundary_after_ascii(b, i as int);
            }
            let ghost before = texts(parts@);
            let part = between(s, start, i);
            parts.push(part);
            proof {
                assert(texts(parts@) =~= before.push(part.spec_bytes()));
                assert(before + (seq![part.spec_bytes()] + split_from(b, i + 1)) =~= before.push(
                    part.spec_bytes(),
                ) + split_from(b, i + 1));
            }
            start = i + 1;
        }
        i += 1;
    }
    let ghost before = texts(parts@);
    let last = tail(s, start);
    parts.push(last);
    proof {
        assert(texts(parts@) =~= before.push(last.spec_bytes()));
        assert(before + seq![suffix(b, start as int)] =~= before.push(last.spec_bytes()));
    }
    parts
}

/// Cuts `s` into its characters.
pub fn split_at_chars<'a>(s: &'a str) -> (r: Vec<&'a str>)
    ensures
        texts(r@) == split_chars(s.spec_bytes()),
{
    let ghost b = s.spec_bytes();
    let bytes = s.as_bytes();
    let n: usize = bytes.len();
    let mut parts: Vec<&'a str> = Vec::new();
    let mut i: usize = 0;
    proof {
        assert(suffix(b, 0) =~= b);
        assert(texts(parts@) + split_chars(b) =~= split_chars(b));
    }
    while i < n
        invariant
            b == s.spec_bytes(),
            bytes@ == b,
            n == b.len(),
            i <= n,
            is_char_boundary(b, i as int),
            split_chars(b) == texts(parts@) + split_chars(suffix(b, i as int)),
        decreases n - i,
    {
        let width = char_width(bytes[i]);
        proof {
            lemma_boundary_after_scalar(b, i as int);
            assert(suffix(b, i as int)[0] == b[i as int]);
        }
        let ghost before = texts(parts@);
        let ghost rest = suffix(b, i as int);
        let part = between(s, i, i + width);
        parts.push(part);
        proof {
            assert(texts(parts@) =~= before.push(part.spec_bytes()));
            assert(rest.subrange(0, width as int) =~= part.spec_bytes());
            assert(suffix(rest, width as int) =~= suffix(b, i + width));
            assert(before + (seq![part.spec_bytes()] + split_chars(suffix(b, i + width)))
                =~= before.push(part.spec_bytes()) + split_chars(suffix(b, i + width)));
        }
        i = i + width;
    }
    proof {
        assert(texts(parts@) + split_chars(suffix(b, n as int)) =~= texts(parts@));
    }
    parts
}

/// Why a `ruby` command could not be turned into an annotation.
#[derive(Debug, Clone, PartialEq)]
pub enum RubyError {
    /// There are not as many reading groups as base groups; the numbers are
    /// those of the base groups and of the reading groups.
    NumberMismatch(usize, usize),
}

/// The annotation of the base groups `base` with the reading groups `ruby`,
/// or, where their numbers differ, the two numbers.
pub open spec fn aligned(base: Seq<Seq<u8>>, ruby: Seq<Seq<u8>>) -> Result<RubyView, (nat, nat)> {
    if base.len() == ruby.len() {
        Ok(RubyView { base: base, ruby: ruby })
    } else {
        Err((base.len(), ruby.len()))
    }
}

/// Whether `r` is the outcome `outcome`: the same annotation, or a mismatch
/// of the same numbers.
pub open spec fn is_outcome(r: Result<Ruby<'_>, RubyError>, outcome: Result<RubyView, (nat, nat)>) -> bool {
    match outcome {
        Ok(view) => r is Ok && r.unwrap()@ == view,
        Err((base, ruby)) => r == Err::<Ruby<'_>, RubyError>(
            RubyError::NumberMismatch(base as usize, ruby as usize),
        ) && base <= usize::MAX && ruby <= usize::MAX,
    }
}

fn align<'a>(base_groups: Vec<&'a str>, ruby_groups: Vec<&'a str>) -> (r: Result<
    Ruby<'a>,
    RubyError,
>)
    ensures
        is_outcome(r, aligned(texts(base_groups@), texts(ruby_groups@))),
{
    if base_groups.len() == ruby_groups.len() {
        Ok(Ruby::from_str_vecs(base_groups, ruby_groups))
    } else {
        Err(RubyError::NumberMismatch(base_groups.len(), ruby_groups.len()))
    }
}

/// Annotates each character of `base` with one group of `ruby`, whose groups
/// bars separate.
pub fn make_ruby_for_each_char<'a>(base: &'a str, ruby: &'a str) -> (r: Result<
    Ruby<'a>,
    RubyError,
>)
    ensures
        is_outcome(r, aligned(split_chars(base.spec_bytes()), split_bar(ruby.spec_bytes()))),
{
    let base_groups = split_at_chars(base);
    let ruby_groups = split_at_bars(ruby);
    align(base_groups, ruby_groups)
}

/// Annotates each group of `base` with one group of `ruby`; bars separate the
/// groups of both.
pub fn command_ruby<'a>(base: &'a str, ruby: &'a str) -> (r: Result<Ruby<'a>, RubyError>)
    ensures
        is_outcome(r, aligned(split_bar(base.spec_bytes()), split_bar(ruby.spec_bytes()))),
{
    let base_groups = split_at_bars(base);
    let ruby_groups = split_at_bars(ruby);
    align(base_groups, ruby_groups)
}

/// The bytes of the name `ruby`.
pub open spec fn ruby_name() -> Seq<u8> {
    seq![0x72u8, 0x75u8, 0x62u8, 0x79u8]
}

/// The annotation that a `ruby` command with the arguments `base` and `ruby`
/// stands for. Bars cut both into groups. Where the numbers of groups differ
/// and `base` is one group, each character of `base` is a group. Where the
/// numbers differ still, there is no annotation.
pub open spec fn annotation(base: Seq<u8>, ruby: Seq<u8>) -> Result<RubyView, (nat, nat)> {
    if split_bar(base).len() == split_bar(ruby).len() || split_bar(base).len() != 1 {
        aligned(split_bar(base), split_bar(ruby))
    } else {
        aligned(split_chars(base), split_bar(ruby))
    }
}

/// Turns a `ruby` command, which has two arguments, into the annotation it
/// stands for.
pub fn execute_command_ruby<'a>(cmd: Command<'a>) -> (r: Result<Ruby<'a>, RubyError>)
    requires
        cmd@.name == ruby_name(),
        cmd@.args.len() == 2,
    ensures
        is_outcome(r, annotation(cmd@.args[0], cmd@.args[1])),
{
    match command_ruby(cmd.args[0], cmd.args[1]) {
        Ok(ruby) => Ok(ruby),
        Err(RubyError::NumberMismatch(1, _)) => make_ruby_for_each_char(cmd.args[0], cmd.args[1]),
        Err(e) => Err(e),
    }
}

/// The commands that the filter knows: `ruby`, with two arguments.
pub open spec fn ruby_arities() -> Map<Seq<u8>, usize> {
    map![ruby_name() => 2usize]
}

/// A `ruby` command that stands for no annotation: the command as it stands
/// in the text, and what is wrong with it.
#[derive(Debug, Clone, PartialEq)]
pub struct CommandError<'a> {
    pub source: &'a str,
    pub cause: RubyError,
}

/// A piece of a filtered text, by its bytes.
pub ghost enum Segment {
    /// A run of text that holds no command.
    Plain(Seq<u8>),
    /// A `ruby` command: the bytes it takes up in the text, and the
    /// annotation it stands for.
    Annotation { source: Seq<u8>, outcome: Result<RubyView, (nat, nat)> },
}

impl Segment {
    /// The bytes of the text that the segment takes up.
    pub open spec fn source(self) -> Seq<u8> {
        match self {
            Segment::Plain(text) => text,
            Segment::Annotation { source, outcome } => source,
        }
    }
}

/// The segments of the text `b`, in order. The first command of `b` is an
/// annotation; what stands before it, if anything, is a plain run; the
/// segments of what follows it come after. A text without a command is one
/// plain run, and an empty text has no segment.
pub open spec fn segments(b: Seq<u8>) -> Seq<Segment>
    recommends
        valid_utf8(b),
    decreases b.len(),
{
    if b.len() == 0 {
        Seq::empty()
    } else {
        match next_command(b, ruby_arities(), 0) {
            None => seq![Segment::Plain(b)],
            Some((start, end, command)) => {
                let found = Segment::Annotation {
                    source: b.subrange(start, end),
                    outcome: annotation(command.args[0], command.args[1]),
                };
                let rest = if 0 < end <= b.len() {
                    segments(suffix(b, end))
                } else {
                    Seq::empty()
                };
                if start > 0 {
                    seq![Segment::Plain(b.subrange(0, start)), found] + rest
                } else {
                    seq![found] + rest
                }
            },
        }
    }
}

/// Whether `item`, which the filter gave out, is the segment `segment`.
pub open spec fn shows(item: Result<Filtered<'_>, CommandError<'_>>, segment: Segment) -> bool {
    match segment {
        Segment::Plain(text) => item matches Ok(Filtered::Plain(plain)) && plain.spec_bytes()
            == text,
        Segment::Annotation { source, outcome } => match outcome {
            Ok(view) => item matches Ok(Filtered::Ruby(ruby)) && ruby@ == view,
            Err((base, ruby)) => item matches Err(error) && error.source.spec_bytes() == source
                && error.cause == RubyError::NumberMismatch(base as usize, ruby as usize)
                && base <= usize::MAX && ruby <= usize::MAX,
        },
    }
}

/// The next command of a text starts at a character boundary at or after
/// `index`, ends at a later one, and is the command that stands at its start.
pub proof fn lemma_next_command(b: Seq<u8>, arities: Map<Seq<u8>, usize>, index: int)
    requires
        valid_utf8(b),
    ensures
        match next_command(b, arities, index) {
            Some((start, end, command)) => 0 <= index <= start && start + 2 <= end <= b.len()
                && is_char_boundary(b, start) && is_char_boundary(b, end) && command_at_start(
                suffix(b, start),
                arities,
            ) == Ok::<(int, CommandView), int>((end - start, command)),
            None => true,
        },
    decreases b.len() - index,
{
    if 0 <= index <= b.len() && is_char_boundary(b, index) {
        let rest = suffix(b, index);
        lemma_command_at_start(rest, arities);
        match command_at_start(rest, arities) {
            Ok((end, command)) => {
                broadcast use vstd::utf8::group_utf8_lib;

                lemma_boundary_after_ascii(rest, end - 1);
                lemma_boundary_add(b, index, end);
            },
            Err(retry) => {
                if index + retry <= b.len() {
                    lemma_next_command(b, arities, index + retry);
                }
            },
        }
    }
}

/// A command that `ruby_arities` accepts is named `ruby` and has two
/// arguments.
pub proof fn lemma_ruby_command(b: Seq<u8>)
    ensures
        match command_at_start(b, ruby_arities()) {
            Ok((end, command)) => command.name == ruby_name() && command.args.len() == 2,
            Err(retry) => true,
        },
{
    match command_name_end(b) {
        Some(name_end) => {
            lemma_letters_end(b, 2);
            lemma_arguments(b, name_end, 2);
        },
        None => {},
    }
}

/// The segments of a text that is not empty, by its first command: the
/// command is named `ruby`, has two arguments, and lies between two character
/// boundaries of the text.
pub proof fn lemma_segments(b: Seq<u8>)
    requires
        valid_utf8(b),
        b.len() > 0,
    ensures
        match next_command(b, ruby_arities(), 0) {
            None => segments(b) == seq![Segment::Plain(b)],
            Some((start, end, command)) => {
                let found = Segment::Annotation {
                    source: b.subrange(start, end),
                    outcome: annotation(command.args[0], command.args[1]),
                };
                &&& 0 <= start
                &&& start + 2 <= end <= b.len()
                &&& is_char_boundary(b, start)
                &&& is_char_boundary(b, end)
                &&& command.name == ruby_name()
                &&& command.args.len() == 2
                &&& start > 0 ==> segments(b) == seq![Segment::Plain(b.subrange(0, start)), found]
                    + segments(suffix(b, end))
                &&& start == 0 ==> segments(b) == seq![found] + segments(suffix(b, end))
            },
        },
{
    lemma_next_command(b, ruby_arities(), 0);
    match next_command(b, ruby_arities(), 0) {
        None => {},
        Some((start, end, command)) => {
            lemma_ruby_command(suffix(b, start));
        },
    }
}

/// Cuts a text into plain runs and ruby annotations, one at a time.
#[derive(Debug, Clone)]
pub struct LatexLikeFilter<'a> {
    slice: &'a str,
    ruby: Option<(&'a str, Result<Ruby<'a>, RubyError>)>,
}

/// The segment of a `ruby` command that was found at `source` and turned
/// into `outcome`.
pub open spec fn found_segment(source: &str, outcome: Result<Ruby<'_>, RubyError>) -> Segment {
    Segment::Annotation {
        source: source.spec_bytes(),
        outcome: match outcome {
            Ok(ruby) => Ok(ruby@),
            Err(RubyError::NumberMismatch(base, ruby)) => Err((base as nat, ruby as nat)),
        },
    }
}

impl<'a> LatexLikeFilter<'a> {
    /// The segments that are still to come.
    pub closed spec fn remaining(self) -> Seq<Segment> {
        match self.ruby {
            Some((source, outcome)) => seq![found_segment(source, outcome)] + segments(
                self.slice.spec_bytes(),
            ),
            None => segments(self.slice.spec_bytes()),
        }
    }

    /// A filter that will give out the segments of `s`.
    pub fn new(s: &'a str) -> (r: Self)
        ensures
            r.remaining() == segments(s.spec_bytes()),
    {
        Self { slice: s, ruby: None }
    }

    /// Gives out the next segment: a plain run, an annotation, or the error
    /// of a `ruby` command that stands for no annotation. After the last
    /// segment there is nothing more.
    pub fn next(&mut self) -> (r: Option<Result<Filtered<'a>, CommandError<'a>>>)
        ensures
            old(self).remaining().len() == 0 ==> r is None && final(self).remaining()
                == old(self).remaining(),
            old(self).remaining().len() > 0 ==> r is Some && shows(
                r.unwrap(),
                old(self).remaining()[0],
            ) && final(self).remaining() == old(self).remaining().drop_first(),
    {
        let ghost before_all = self.remaining();
        if let Some((source, outcome)) = self.ruby.take() {
            let item = give(source, outcome);
            proof {
                let rest = segments(self.slice.spec_bytes());
                assert(before_all == seq![found_segment(source, outcome)] + rest);
                assert(before_all.drop_first() =~= rest);
            }
            return Some(item);
        }
        let whole = self.slice;
        let ghost b = whole.spec_bytes();
        let n: usize = whole.as_bytes().len();
        if n == 0 {
            return None;
        }
        let arity_table = [("ruby", 2usize)];
        let table = arity_table.as_slice();
        proof {
            lemma_ruby_table(table);
            lemma_segments(b);
        }
        match take_next_command(whole, table) {
            Some((before, command, after)) => {
                let start: usize = before.as_bytes().len();
                let end: usize = n - after.as_bytes().len();
                let source = between(whole, start, end);
                let outcome = execute_command_ruby(command);
                let ghost rest = segments(after.spec_bytes());
                let ghost found = found_segment(source, outcome);
                self.slice = after;
                if start == 0 {
                    let item = give(source, outcome);
                    proof {
                        assert(before_all == seq![found] + rest);
                        assert(before_all.drop_first() =~= rest);
                    }
                    Some(item)
                } else {
                    self.ruby = Some((source, outcome));
                    proof {
                        assert(before_all == seq![Segment::Plain(before.spec_bytes()), found]
                            + rest);
                        assert(before_all.drop_first() =~= seq![found] + rest);
                    }
                    Some(Ok(Filtered::Plain(before)))
                }
            },
            None => {
                self.slice = tail(whole, n);
                proof {
                    assert(before_all.drop_first() =~= Seq::<Segment>::empty());
                }
                Some(Ok(Filtered::Plain(whole)))
            },
        }
    }
}

/// The annotation, or the error that names the command.
fn give<'a>(source: &'a str, outcome: Result<Ruby<'a>, RubyError>) -> (r: Result<
    Filtered<'a>,
    CommandError<'a>,
>)
    ensures
        shows(r, found_segment(source, outcome)),
{
    match outcome {
        Ok(ruby) => Ok(Filtered::Ruby(ruby)),
        Err(cause) => Err(CommandError { source: source, cause: cause }),
    }
}

/// The table with the one entry `ruby`, 2 holds what `ruby_arities` holds.
proof fn lemma_ruby_table(table: &[(&str, usize)])
    requires
        table@.len() == 1,
        table@[0].0@ == "ruby"@,
        table@[0].1 == 2,
    ensures
        table.arities() == ruby_arities(),
{
    broadcast use vstd::utf8::group_utf8_lib;

    reveal_strlit("ruby");
    let chars = table@[0].0@;
    is_ascii_chars_encode_utf8(chars);
    assert(table@[0].0.spec_bytes() =~= ruby_name());
    assert(table@.drop_first().len() == 0);
    assert forall|name: Seq<u8>| #[trigger] first_arity(table@, name) == arity_of(ruby_arities(), name) by {
        reveal_with_fuel(first_arity, 2);
    }
    assert(table.arities() =~= ruby_arities());
}

} // verus!
