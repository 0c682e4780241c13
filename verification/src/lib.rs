//! A text filter for Japanese ruby annotations written in a LaTeX-like
//! notation.
//!
//! A text with ruby consists of base characters and ruby characters, both
//! divided into the same number of groups; the ruby characters of a group are
//! shown above the base characters of the same group. In the notation the
//! base comes first and the reading second, each between braces, and a bar
//! separates the groups:
//!
//! ```text
//! \ruby{武|家|諸法度}{ぶ|け|しょはっと}
//! ```
//!
//! Where the base is written as one group and the reading as several, each
//! character of the base is a group: `\ruby{漢字}{かん|じ}`.
//!
//! - [`latex_like`] reads the notation: [`latex_like::LatexLikeFilter`] cuts
//!   a text into plain runs and annotations.
//! - [`renderer`] turns an annotation into an HTML `<ruby>` element.
//! - [`pulldown_cmark_filter`] applies both to the text events of a document.
//! - [`theorems`] proves what holds of the filter for every text, first of
//!   all that its segments put together are the text.
//! - [`text`] cuts `str` values at byte offsets.
//!
//! All contracts speak of a text through its UTF-8 bytes, so offsets are byte
//! offsets, as they are for `str`.

use std::borrow::Cow;
use vstd::prelude::*;
use vstd::string::*;
use vstd::utf8::*;

pub mod latex_like;
pub mod pulldown_cmark_filter;
pub mod renderer;
pub mod text;
pub mod theorems;

verus! {

/// Plain text or ruby text.
#[derive(Debug, Clone, PartialEq)]
pub enum Filtered<'a> {
    Plain(&'a str),
    Ruby(Ruby<'a>),
}

/// Pairs of base characters and ruby characters: group `i` of the reading
/// belongs to group `i` of the base, and there are as many of one as of the
/// other.
#[derive(Debug, PartialEq)]
pub struct Ruby<'a> {
    base: Vec<Cow<'a, str>>,
    ruby: Vec<Cow<'a, str>>,
}

/// What a ruby annotation says: the bytes of each base group and of each
/// reading group.
pub ghost struct RubyView {
    pub base: Seq<Seq<u8>>,
    pub ruby: Seq<Seq<u8>>,
}

/// The bytes of each text of `v`, in order.
pub open spec fn texts(v: Seq<&str>) -> Seq<Seq<u8>> {
    Seq::new(v.len(), |i: int| v[i].spec_bytes())
}

/// The bytes of each group of `v`, in order.
pub open spec fn groups(v: Seq<Cow<'_, str>>) -> Seq<Seq<u8>> {
    Seq::new(v.len(), |i: int| encode_utf8(v[i]@))
}

impl<'a> View for Ruby<'a> {
    type V = RubyView;

    closed spec fn view(&self) -> RubyView {
        RubyView { base: groups(self.base@), ruby: groups(self.ruby@) }
    }
}

fn borrow_all<'a>(v: Vec<&'a str>) -> (r: Vec<Cow<'a, str>>)
    ensures
        r@.len() == v@.len(),
        groups(r@) == texts(v@),
{
    let mut out: Vec<Cow<'a, str>> = Vec::new();
    let n: usize = v.len();
    let mut i: usize = 0;
    while i < n
        invariant
            n == v@.len(),
            i <= n,
            out@.len() == i,
            groups(out@) == texts(v@.subrange(0, i as int)),
        decreases n - i,
    {
        let ghost before = groups(out@);
        out.push(Cow::Borrowed(v[i]));
        proof {
            assert(groups(out@) =~= before.push(v@[i as int].spec_bytes()));
            assert(texts(v@.subrange(0, i + 1)) =~= texts(v@.subrange(0, i as int)).push(
                v@[i as int].spec_bytes(),
            ));
        }
        i += 1;
    }
    proof {
        assert(v@.subrange(0, n as int) =~= v@);
    }
    out
}

impl<'a> Ruby<'a> {
    #[verifier::type_invariant]
    spec fn aligned(self) -> bool {
        self.base@.len() == self.ruby@.len()
    }

    /// An annotation of the base groups `base` with the reading groups
    /// `ruby`, of which there must be as many.
    pub fn from_str_vecs(base: Vec<&'a str>, ruby: Vec<&'a str>) -> (r: Ruby<'a>)
        requires
            base@.len() == ruby@.len(),
        ensures
            r@ == (RubyView { base: texts(base@), ruby: texts(ruby@) }),
    {
        let b = borrow_all(base);
        let r = borrow_all(ruby);
        Ruby { base: b, ruby: r }
    }

    /// The base groups.
    pub fn base(&self) -> (r: &[Cow<'a, str>])
        ensures
            groups(r@) == self@.base,
            self@.base.len() == self@.ruby.len(),
    {
        proof {
            use_type_invariant(self);
        }
        self.base.as_slice()
    }

    /// The reading groups.
    pub fn ruby(&self) -> (r: &[Cow<'a, str>])
        ensures
            groups(r@) == self@.ruby,
            self@.base.len() == self@.ruby.len(),
    {
        proof {
            use_type_invariant(self);
        }
        self.ruby.as_slice()
    }
}

fn clone_all<'a>(v: &Vec<Cow<'a, str>>) -> (r: Vec<Cow<'a, str>>)
    ensures
        r@.len() == v@.len(),
        groups(r@) == groups(v@),
{
    let mut out: Vec<Cow<'a, str>> = Vec::new();
    let n: usize = v.len();
    let mut i: usize = 0;
    while i < n
        invariant
            n == v@.len(),
            i <= n,
            out@.len() == i,
            groups(out@) == groups(v@.subrange(0, i as int)),
        decreases n - i,
    {
        let ghost before = groups(out@);
        let copy: Cow<'a, str> = match &v[i] {
            Cow::Borrowed(text) => Cow::Borrowed(*text),
            Cow::Owned(text) => Cow::Owned(text.clone()),
        };
        out.push(copy);
        proof {
            assert(groups(out@) =~= before.push(encode_utf8(v@[i as int]@)));
            assert(groups(v@.subrange(0, i + 1)) =~= groups(v@.subrange(0, i as int)).push(
                encode_utf8(v@[i as int]@),
            ));
        }
        i += 1;
    }
    proof {
        assert(v@.subrange(0, n as int) =~= v@);
    }
    out
}

impl<'a> Clone for Ruby<'a> {
    fn clone(&self) -> (r: Self)
        ensures
            r@ == self@,
    {
        proof {
            use_type_invariant(self);
        }
        Ruby { base: clone_all(&self.base), ruby: clone_all(&self.ruby) }
    }
}

} // verus!
