use crate::error::Error;
use vstd::prelude::*;
use vstd::string::*;

verus! {

/// A character the namespace grammar accepts: ASCII letters, ASCII digits,
/// and the separators '-', '_' and '.'.
pub open spec fn valid_ns_char(c: char) -> bool {
    ('a' <= c && c <= 'z') || ('A' <= c && c <= 'Z') || ('0' <= c && c <= '9') || c == '-' || c
        == '_' || c == '.'
}

/// A valid namespace label: non-empty text made of grammar characters only.
pub open spec fn valid_namespace(s: Seq<char>) -> bool {
    &&& s.len() > 0
    &&& forall|i: int| 0 <= i < s.len() ==> valid_ns_char(#[trigger] s[i])
}

/// A validated grouping identifier for a family of capabilities.
///
/// Values exist only through the validating factory, so a constructed
/// `Namespace` always satisfies `valid_namespace`.
#[derive(Debug, PartialEq, Eq)]
pub struct Namespace {
    text: String,
}

impl Namespace {
    /// A constructed namespace always satisfies the grammar.
    #[verifier::type_invariant]
    pub open spec fn grammar_holds(self) -> bool {
        valid_namespace(self@)
    }
}

impl View for Namespace {
    type V = Seq<char>;

    closed spec fn view(&self) -> Seq<char> {
        self.text@
    }
}

impl Namespace {
    /// Validating factory: accepts exactly the texts of the namespace grammar.
    pub fn parse(s: &str) -> (r: Result<Namespace, Error>)
        ensures
            match r {
                Ok(ns) => valid_namespace(s@) && ns@ == s@,
                Err(e) => !valid_namespace(s@) && e == Error::InvalidNamespace,
            },
    {
        let len = s.unicode_len();
        if len == 0 {
            return Err(Error::InvalidNamespace);
        }
        let mut i: usize = 0;
        while i < len
            invariant
                i <= len,
                len == s@.len(),
                forall|j: int| 0 <= j < i ==> valid_ns_char(#[trigger] s@[j]),
            decreases len - i,
        {
            let c = s.get_char(i);
            let ok = ('a' <= c && c <= 'z') || ('A' <= c && c <= 'Z') || ('0' <= c && c <= '9')
                || c == '-' || c == '_' || c == '.';
            if !ok {
                return Err(Error::InvalidNamespace);
            }
            i += 1;
        }
        Ok(Namespace { text: s.to_owned() })
    }

    /// The raw namespace text.
    pub fn as_text(&self) -> (r: &str)
        ensures
            r@ == self@,
            valid_namespace(self@),
    {
        proof {
            use_type_invariant(&*self);
        }
        self.text.as_str()
    }

    /// True iff this namespace has the same text as another.
    pub fn text_equals(&self, other: &Namespace) -> (r: bool)
        ensures
            r == (self@ == other@),
    {
        self.text.eq(&other.text)
    }

    /// An owned copy of this namespace.
    pub fn duplicate(&self) -> (r: Namespace)
        ensures
            r@ == self@,
    {
        proof {
            use_type_invariant(&*self);
        }
        Namespace { text: self.text.clone() }
    }
}

impl core::str::FromStr for Namespace {
    type Err = Error;

    fn from_str(s: &str) -> Result<Namespace, Error> {
        Namespace::parse(s)
    }
}

} // verus!
