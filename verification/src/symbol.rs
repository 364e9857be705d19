use vstd::prelude::*;

verus! {

/// An identifier, resolved against the environment when evaluated.
#[derive(Debug)]
pub struct Symbol {
    pub name: String,
}

impl View for Symbol {
    type V = Seq<char>;

    open spec fn view(&self) -> Seq<char> {
        self.name@
    }
}

impl Clone for Symbol {
    fn clone(&self) -> (r: Self)
        ensures
            r@ == self@,
    {
        Symbol { name: self.name.clone() }
    }
}

impl Symbol {
    pub fn new(name: &str) -> (r: Self)
        ensures
            r@ == name@,
    {
        Symbol { name: name.to_owned() }
    }

    pub fn get_name(&self) -> (r: String)
        ensures
            r@ == self@,
    {
        self.name.clone()
    }

    /// The symbol as it is displayed: its bare name.
    pub fn to_text(&self) -> (r: String)
        ensures
            r@ == self@,
    {
        self.name.clone()
    }
}

} // verus!
