//! Rendering of a ruby annotation as an HTML `<ruby>` element.

use std::borrow::Cow;
use vstd::prelude::*;
use vstd::string::*;
use vstd::utf8::*;
use crate::text::push_text;
use crate::{groups, Ruby, RubyView};

verus! {

/// Writes annotations as HTML. Each reading stands in an `<rt>` element
/// between two `<rp>` elements, which hold the parentheses shown where ruby
/// is not supported.
#[derive(Debug)]
pub struct HtmlRenderer {
    open_paren: String,
    close_paren: String,
}

/// The markup of one base group with its reading, between the parentheses
/// `open` and `close`.
pub open spec fn group_markup(open: Seq<u8>, close: Seq<u8>, base: Seq<u8>, ruby: Seq<u8>) -> Seq<
    u8,
> {
    base + "<rp>".spec_bytes() + open + "</rp>".spec_bytes() + "<rt>".spec_bytes() + ruby
        + "</rt>".spec_bytes() + "<rp>".spec_bytes() + close + "</rp>".spec_bytes()
}

/// The markup of the first `n` groups of `ruby`, one after another.
pub open spec fn groups_markup(open: Seq<u8>, close: Seq<u8>, ruby: RubyView, n: nat) -> Seq<u8>
    decreases n,
{
    if n == 0 {
        Seq::empty()
    } else {
        groups_markup(open, close, ruby, (n - 1) as nat) + group_markup(
            open,
            close,
            ruby.base[n - 1],
            ruby.ruby[n - 1],
        )
    }
}

/// The `<ruby>` element for `ruby`.
pub open spec fn ruby_markup(open: Seq<u8>, close: Seq<u8>, ruby: RubyView) -> Seq<u8> {
    "<ruby>".spec_bytes() + groups_markup(open, close, ruby, ruby.base.len())
        + "</ruby>".spec_bytes()
}

fn as_text<'b>(group: &'b Cow<'_, str>) -> (r: &'b str)
    ensures
        r@ == group@,
{
    match group {
        Cow::Borrowed(text) => text,
        Cow::Owned(text) => text.as_str(),
    }
}

impl HtmlRenderer {
    /// The opening parenthesis, as bytes.
    pub closed spec fn open(&self) -> Seq<u8> {
        encode_utf8(self.open_paren@)
    }

    /// The closing parenthesis, as bytes.
    pub closed spec fn close(&self) -> Seq<u8> {
        encode_utf8(self.close_paren@)
    }

    /// A renderer with the full-width parentheses `（` and `）`.
    pub fn new() -> (r: Self)
        ensures
            r.open() == "（".spec_bytes(),
            r.close() == "）".spec_bytes(),
    {
        Self::with_parens("（", "）")
    }

    /// A renderer with the parentheses `open` and `close`.
    pub fn with_parens(open: &str, close: &str) -> (r: Self)
        ensures
            r.open() == open.spec_bytes(),
            r.close() == close.spec_bytes(),
    {
        Self { open_paren: open.to_owned(), close_paren: close.to_owned() }
    }

    fn push_open_paren(&self, buffer: &mut String)
        ensures
            encode_utf8(final(buffer)@) == encode_utf8(old(buffer)@) + "<rp>".spec_bytes()
                + self.open() + "</rp>".spec_bytes(),
    {
        push_text(buffer, "<rp>");
        push_text(buffer, self.open_paren.as_str());
        push_text(buffer, "</rp>");
    }

    fn push_close_paren(&self, buffer: &mut String)
        ensures
            encode_utf8(final(buffer)@) == encode_utf8(old(buffer)@) + "<rp>".spec_bytes()
                + self.close() + "</rp>".spec_bytes(),
    {
        push_text(buffer, "<rp>");
        push_text(buffer, self.close_paren.as_str());
        push_text(buffer, "</rp>");
    }

    /// Appends the `<ruby>` element for `ruby` to `buffer`.
    pub fn render(&self, ruby: &Ruby, buffer: &mut String)
        ensures
            encode_utf8(final(buffer)@) == encode_utf8(old(buffer)@) + ruby_markup(
                self.open(),
                self.close(),
                ruby@,
            ),
    {
        let ghost start = encode_utf8(buffer@);
        let ghost open = self.open();
        let ghost close = self.close();
        push_text(buffer, "<ruby>");
        let base = ruby.base();
        let reading = ruby.ruby();
        let n: usize = base.len();
        proof {
            assert(groups(base@).len() == n);
            assert(groups(reading@).len() == reading@.len());
            assert(encode_utf8(buffer@) =~= start + "<ruby>".spec_bytes() + groups_markup(
                open,
                close,
                ruby@,
                0,
            ));
        }
        let mut i: usize = 0;
        while i < n
            invariant
                i <= n,
                n == base@.len(),
                n == reading@.len(),
                groups(base@) == ruby@.base,
                groups(reading@) == ruby@.ruby,
                open == self.open(),
                close == self.close(),
                encode_utf8(buffer@) == start + "<ruby>".spec_bytes() + groups_markup(
                    open,
                    close,
                    ruby@,
                    i as nat,
                ),
            decreases n - i,
        {
            let ghost before = encode_utf8(buffer@);
            let rb = as_text(&base[i]);
            let rt = as_text(&reading[i]);
            push_text(buffer, rb);
            self.push_open_paren(buffer);
            push_text(buffer, "<rt>");
            push_text(buffer, rt);
            push_text(buffer, "</rt>");
            self.push_close_paren(buffer);
            proof {
                assert(rb.spec_bytes() == ruby@.base[i as int]);
                assert(rt.spec_bytes() == ruby@.ruby[i as int]);
                assert(encode_utf8(buffer@) =~= before + group_markup(
                    open,
                    close,
                    ruby@.base[i as int],
                    ruby@.ruby[i as int],
                ));
                assert(encode_utf8(buffer@) =~= start + "<ruby>".spec_bytes() + groups_markup(
                    open,
                    close,
                    ruby@,
                    (i + 1) as nat,
                ));
            }
            i += 1;
        }
        push_text(buffer, "</ruby>");
        proof {
            assert(encode_utf8(buffer@) =~= start + ruby_markup(open, close, ruby@));
        }
    }
}

} // verus!
