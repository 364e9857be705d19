use vstd::prelude::*;
use vstd::string::StringExecFns;

verus! {

/// A self-evaluating literal, distinct from a symbol; it is written and
/// displayed with a leading colon, which is not part of its name.
#[derive(Debug)]
pub struct Keyword {
    pub name: String,
}

impl View for Keyword {
    type V = Seq<char>;

    open spec fn view(&self) -> Seq<char> {
        self.name@
    }
}

impl Clone for Keyword {
    fn clone(&self) -> (r: Self)
        ensures
            r@ == self@,
    {
        Keyword { name: self.name.clone() }
    }
}

impl Keyword {
    pub fn new(name: &str) -> (r: Self)
        ensures
            r@ == name@,
    {
        Keyword { name: name.to_owned() }
    }

    /// The keyword as it is displayed: a colon followed by its name.
    pub fn to_text(&self) -> (r: String)
        ensures
            r@ == seq![':'] + self@,
    {
        let mut s = String::from_str(":");
        s.append(self.name.as_str());
        proof {
            reveal_strlit(":");
            assert(":"@ =~= seq![':']);
        }
        s
    }
}

} // verus!
