use crate::keyword::Keyword;
use crate::symbol::Symbol;
use vstd::prelude::*;

verus! {

/// The arithmetic primitive that stands behind a built-in `Function` value.
/// The built-in set is fixed, so an enumeration takes the place of the
/// function pointer a dynamic language would store.
#[derive(Clone, Copy, PartialEq, Eq, Structural, Debug)]
pub enum Builtin {
    Plus,
    Minus,
    Multiply,
    Divide,
}

/// Mathematical model of an atomic value.
#[verifier::ext_equal]
pub enum SpecAtom {
    Symbol(Seq<char>),
    Keyword(Seq<char>),
    Integer(int),
    Str(Seq<char>),
    Boolean(bool),
    Nil,
}

/// Mathematical model of a value: the view of `MalType`.
#[verifier::ext_equal]
pub enum SpecValue {
    Atom(SpecAtom),
    List(Seq<SpecValue>),
    Vector(Seq<SpecValue>),
    Mapping(Seq<(SpecAtom, SpecValue)>),
    Function(Seq<char>, Builtin),
}

/// Mathematical model of an error: the view of `MalError`.
#[verifier::ext_equal]
pub enum SpecError {
    Normal(Seq<char>),
    Parsing(Seq<char>),
    Resolve(Seq<char>),
}

/// An atomic (non-compound) value; the only values allowed as map keys.
#[derive(Debug)]
pub enum MalAtom {
    Symbol(Symbol),
    Keyword(Keyword),
    Integer(i64),
    Str(String),
    Boolean(bool),
    Nil,
}

/// A named built-in function value.
#[derive(Debug)]
pub struct MalFunction {
    pub name: Symbol,
    pub op: Builtin,
}

/// One key/value entry of a map value; keys are always atoms.
#[derive(Debug)]
pub struct MapEntry {
    pub key: MalAtom,
    pub val: MalType,
}

/// A runtime value: a tagged union over atoms, the three compound shapes,
/// and built-in functions. Only a `List` is ever treated as an application.
#[derive(Debug)]
pub enum MalType {
    Atom(MalAtom),
    List(Vec<MalType>),
    Vector(Vec<MalType>),
    Mapping(Vec<MapEntry>),
    Function(MalFunction),
}

/// The closed error taxonomy: `Normal` for arity/type/application
/// violations, `Parsing` for reader failures, `Resolve` for a failed
/// symbol lookup (it carries the offending name).
#[derive(Debug)]
pub enum MalError {
    Normal(String),
    Parsing(String),
    Resolve(String),
}

impl View for MalAtom {
    type V = SpecAtom;

    open spec fn view(&self) -> SpecAtom {
        match self {
            MalAtom::Symbol(s) => SpecAtom::Symbol(s@),
            MalAtom::Keyword(k) => SpecAtom::Keyword(k@),
            MalAtom::Integer(i) => SpecAtom::Integer(*i as int),
            MalAtom::Str(s) => SpecAtom::Str(s@),
            MalAtom::Boolean(b) => SpecAtom::Boolean(*b),
            MalAtom::Nil => SpecAtom::Nil,
        }
    }
}

/// The views of a sequence of values, element by element.
pub open spec fn views_of(l: Seq<MalType>) -> Seq<SpecValue>
    decreases l,
{
    if l.len() == 0 {
        Seq::empty()
    } else {
        views_of(l.drop_last()).push(l.last()@)
    }
}

/// The views of a sequence of map entries, entry by entry.
pub open spec fn views_of_entries(m: Seq<MapEntry>) -> Seq<(SpecAtom, SpecValue)>
    decreases m,
{
    if m.len() == 0 {
        Seq::empty()
    } else {
        views_of_entries(m.drop_last()).push(m.last()@)
    }
}

/// `views_of` takes each element to its view, position by position.
pub broadcast proof fn lemma_views_of(l: Seq<MalType>)
    ensures
        (#[trigger] views_of(l)).len() == l.len(),
        forall|i: int| 0 <= i < l.len() ==> views_of(l)[i] == l[i]@,
    decreases l.len(),
{
    if l.len() > 0 {
        lemma_views_of(l.drop_last());
        assert(views_of(l) == views_of(l.drop_last()).push(l.last()@));
        assert(views_of(l).len() == l.len());
        assert forall|i: int| 0 <= i < l.len() implies views_of(l)[i] == l[i]@ by {
            if i < l.len() - 1 {
                assert(views_of(l)[i] == views_of(l.drop_last())[i]);
                assert(l.drop_last()[i] == l[i]);
            } else {
                assert(views_of(l)[i] == l.last()@);
            }
        }
    } else {
        assert(views_of(l) == Seq::<SpecValue>::empty());
    }
}

/// `views_of_entries` takes each entry to its view, position by position.
pub broadcast proof fn lemma_views_of_entries(m: Seq<MapEntry>)
    ensures
        (#[trigger] views_of_entries(m)).len() == m.len(),
        forall|i: int| 0 <= i < m.len() ==> views_of_entries(m)[i] == m[i]@,
    decreases m.len(),
{
    if m.len() > 0 {
        lemma_views_of_entries(m.drop_last());
        assert(views_of_entries(m) == views_of_entries(m.drop_last()).push(m.last()@));
        assert forall|i: int| 0 <= i < m.len() implies views_of_entries(m)[i] == m[i]@ by {
            if i < m.len() - 1 {
                assert(views_of_entries(m)[i] == views_of_entries(m.drop_last())[i]);
                assert(m.drop_last()[i] == m[i]);
            } else {
                assert(views_of_entries(m)[i] == m.last()@);
            }
        }
    } else {
        assert(views_of_entries(m) == Seq::<(SpecAtom, SpecValue)>::empty());
    }
}

impl View for MalType {
    type V = SpecValue;

    open spec fn view(&self) -> SpecValue
        decreases self,
    {
        match self {
            MalType::Atom(a) => SpecValue::Atom(a@),
            MalType::List(l) => SpecValue::List(views_of(l@)),
            MalType::Vector(l) => SpecValue::Vector(views_of(l@)),
            MalType::Mapping(m) => SpecValue::Mapping(views_of_entries(m@)),
            MalType::Function(f) => SpecValue::Function(f.name@, f.op),
        }
    }
}

impl View for MapEntry {
    type V = (SpecAtom, SpecValue);

    open spec fn view(&self) -> (SpecAtom, SpecValue)
        decreases self,
    {
        (self.key@, self.val@)
    }
}

impl View for MalError {
    type V = SpecError;

    open spec fn view(&self) -> SpecError {
        match self {
            MalError::Normal(s) => SpecError::Normal(s@),
            MalError::Parsing(s) => SpecError::Parsing(s@),
            MalError::Resolve(s) => SpecError::Resolve(s@),
        }
    }
}

impl MalFunction {
    pub fn new(name: Symbol, op: Builtin) -> (r: Self)
        ensures
            r.name@ == name@,
            r.op == op,
    {
        MalFunction { name, op }
    }

}

impl Clone for MalFunction {
    fn clone(&self) -> (r: Self)
        ensures
            r.name@ == self.name@,
            r.op == self.op,
    {
        MalFunction { name: self.name.clone(), op: self.op }
    }
}

impl Clone for MalAtom {
    fn clone(&self) -> (r: Self)
        ensures
            r@ == self@,
    {
        match self {
            MalAtom::Symbol(s) => MalAtom::Symbol(s.clone()),
            MalAtom::Keyword(k) => MalAtom::Keyword(k.clone()),
            MalAtom::Integer(i) => MalAtom::Integer(*i),
            MalAtom::Str(s) => MalAtom::Str(s.clone()),
            MalAtom::Boolean(b) => MalAtom::Boolean(*b),
            MalAtom::Nil => MalAtom::Nil,
        }
    }
}

/// The integer value `n` as a value of the language.
pub open spec fn int_value(n: int) -> SpecValue {
    SpecValue::Atom(SpecAtom::Integer(n))
}

/// An executable result agrees with its mathematical model, both on which
/// side it took and on the value or error it carries.
pub open spec fn result_matches(r: Result<MalType, MalError>, s: Result<SpecValue, SpecError>) -> bool {
    match (r, s) {
        (Ok(v), Ok(sv)) => v@ == sv,
        (Err(e), Err(se)) => e@ == se,
        _ => false,
    }
}

/// Sequences of elementwise-equal views have equal `views_of`.
proof fn lemma_views_of_eq(a: Seq<MalType>, b: Seq<MalType>)
    requires
        a.len() == b.len(),
        forall|i: int| 0 <= i < a.len() ==> a[i]@ == b[i]@,
    ensures
        views_of(a) == views_of(b),
{
    lemma_views_of(a);
    lemma_views_of(b);
    assert(views_of(a) =~= views_of(b));
}

/// Sequences of elementwise-equal entry views have equal `views_of_entries`.
proof fn lemma_views_of_entries_eq(a: Seq<MapEntry>, b: Seq<MapEntry>)
    requires
        a.len() == b.len(),
        forall|i: int| 0 <= i < a.len() ==> a[i]@ == b[i]@,
    ensures
        views_of_entries(a) == views_of_entries(b),
{
    lemma_views_of_entries(a);
    lemma_views_of_entries(b);
    assert(views_of_entries(a) =~= views_of_entries(b));
}

/// Whether two atoms are the same value; atoms are the only values maps
/// may use as keys.
pub fn atom_eq(a: &MalAtom, b: &MalAtom) -> (r: bool)
    ensures
        r == (a@ == b@),
{
    match (a, b) {
        (MalAtom::Symbol(x), MalAtom::Symbol(y)) => x.name == y.name,
        (MalAtom::Keyword(x), MalAtom::Keyword(y)) => x.name == y.name,
        (MalAtom::Integer(x), MalAtom::Integer(y)) => *x == *y,
        (MalAtom::Str(x), MalAtom::Str(y)) => *x == *y,
        (MalAtom::Boolean(x), MalAtom::Boolean(y)) => *x == *y,
        (MalAtom::Nil, MalAtom::Nil) => true,
        _ => false,
    }
}

/// A deep copy of a value; values are copied on read rather than aliased.
pub fn clone_value(v: &MalType) -> (r: MalType)
    ensures
        r@ == v@,
    decreases v,
{
    match v {
        MalType::Atom(a) => MalType::Atom(a.clone()),
        MalType::List(l) => {
            let out = clone_values(l);
            proof {
                lemma_views_of_eq(out@, l@);
            }
            MalType::List(out)
        },
        MalType::Vector(l) => {
            let out = clone_values(l);
            proof {
                lemma_views_of_eq(out@, l@);
            }
            MalType::Vector(out)
        },
        MalType::Mapping(m) => {
            let out = clone_entries(m);
            proof {
                lemma_views_of_entries_eq(out@, m@);
            }
            MalType::Mapping(out)
        },
        MalType::Function(f) => MalType::Function(f.clone()),
    }
}

fn clone_values(l: &Vec<MalType>) -> (r: Vec<MalType>)
    ensures
        r@.len() == l@.len(),
        forall|j: int| 0 <= j < l@.len() ==> r@[j]@ == l@[j]@,
    decreases l,
{
    let mut out: Vec<MalType> = Vec::new();
    let mut i: usize = 0;
    while i < l.len()
        invariant
            i <= l.len(),
            out@.len() == i,
            forall|j: int| 0 <= j < i ==> out@[j]@ == l@[j]@,
        decreases l.len() - i,
    {
        out.push(clone_value(&l[i]));
        i = i + 1;
    }
    out
}

fn clone_entries(m: &Vec<MapEntry>) -> (r: Vec<MapEntry>)
    ensures
        r@.len() == m@.len(),
        forall|j: int| 0 <= j < m@.len() ==> r@[j]@ == m@[j]@,
    decreases m,
{
    let mut out: Vec<MapEntry> = Vec::new();
    let mut i: usize = 0;
    while i < m.len()
        invariant
            i <= m.len(),
            out@.len() == i,
            forall|j: int| 0 <= j < i ==> out@[j]@ == m@[j]@,
        decreases m.len() - i,
    {
        let k = m[i].key.clone();
        let v = clone_value(&m[i].val);
        out.push(MapEntry { key: k, val: v });
        i = i + 1;
    }
    out
}

impl Clone for MalType {
    fn clone(&self) -> (r: Self)
        ensures
            r@ == self@,
    {
        clone_value(self)
    }
}

impl Clone for MalError {
    fn clone(&self) -> (r: Self)
        ensures
            r@ == self@,
    {
        match self {
            MalError::Normal(s) => MalError::Normal(s.clone()),
            MalError::Parsing(s) => MalError::Parsing(s.clone()),
            MalError::Resolve(s) => MalError::Resolve(s.clone()),
        }
    }
}

/// The position of the first entry with key `k`, or a negative value.
pub open spec fn key_first_index(acc: Seq<(SpecAtom, SpecValue)>, k: SpecAtom) -> int
    decreases acc.len(),
{
    if acc.len() == 0 {
        -1
    } else if acc[0].0 == k {
        0
    } else {
        let r = key_first_index(acc.drop_first(), k);
        if r < 0 {
            -1
        } else {
            1 + r
        }
    }
}

/// The first matching key stands where the scan finds it.
pub(crate) proof fn lemma_key_index_hit(acc: Seq<(SpecAtom, SpecValue)>, k: SpecAtom, i: int)
    requires
        0 <= i < acc.len(),
        acc[i].0 == k,
        forall|j: int| 0 <= j < i ==> #[trigger] acc[j].0 != k,
    ensures
        key_first_index(acc, k) == i,
    decreases i,
{
    if i > 0 {
        lemma_key_index_hit(acc.drop_first(), k, i - 1);
    }
}

/// A key that matches no entry is not found.
pub(crate) proof fn lemma_key_index_miss(acc: Seq<(SpecAtom, SpecValue)>, k: SpecAtom)
    requires
        forall|j: int| 0 <= j < acc.len() ==> #[trigger] acc[j].0 != k,
    ensures
        key_first_index(acc, k) == -1,
    decreases acc.len(),
{
    if acc.len() > 0 {
        lemma_key_index_miss(acc.drop_first(), k);
    }
}


/// The value under a key in a sequence of map entries: the first entry
/// with that key.
pub open spec fn map_lookup_val(qs: Seq<(SpecAtom, SpecValue)>, k: SpecAtom) -> Option<SpecValue> {
    let idx = key_first_index(qs, k);
    if 0 <= idx < qs.len() {
        Some(qs[idx].1)
    } else {
        None
    }
}

/// Structural equality of values: atoms by their parts, lists and vectors
/// element by element, maps as key-to-value tables with entry order
/// ignored, and function values never equal, not even to themselves.
pub open spec fn val_eq(a: SpecValue, b: SpecValue) -> bool
    decreases a, 0int,
{
    match (a, b) {
        (SpecValue::Atom(x), SpecValue::Atom(y)) => x == y,
        (SpecValue::List(xs), SpecValue::List(ys)) => vals_eq(xs, ys),
        (SpecValue::Vector(xs), SpecValue::Vector(ys)) => vals_eq(xs, ys),
        (SpecValue::Mapping(ps), SpecValue::Mapping(qs)) => ps.len() == qs.len()
            && pairs_included(ps, qs),
        _ => false,
    }
}

/// Elementwise structural equality of two sequences of values.
pub open spec fn vals_eq(xs: Seq<SpecValue>, ys: Seq<SpecValue>) -> bool
    decreases xs, 1int,
{
    if xs.len() != ys.len() {
        false
    } else if xs.len() == 0 {
        true
    } else {
        val_eq(xs[0], ys[0]) && vals_eq(xs.drop_first(), ys.drop_first())
    }
}

/// Every entry of `ps` has a structurally equal value under its key in
/// `qs`.
pub open spec fn pairs_included(
    ps: Seq<(SpecAtom, SpecValue)>,
    qs: Seq<(SpecAtom, SpecValue)>,
) -> bool
    decreases ps, 1int,
{
    if ps.len() == 0 {
        true
    } else {
        match map_lookup_val(qs, ps[0].0) {
            Some(w) => val_eq(ps[0].1, w) && pairs_included(ps.drop_first(), qs),
            None => false,
        }
    }
}

/// Structural equality on runtime values.
fn value_eq(a: &MalType, b: &MalType) -> (r: bool)
    ensures
        r == val_eq(a@, b@),
    decreases a, 0int,
{
    match (a, b) {
        (MalType::Atom(x), MalType::Atom(y)) => atom_eq(x, y),
        (MalType::List(xs), MalType::List(ys)) => values_eq(xs, ys),
        (MalType::Vector(xs), MalType::Vector(ys)) => values_eq(xs, ys),
        (MalType::Mapping(ps), MalType::Mapping(qs)) => {
            proof {
                lemma_views_of_entries(ps@);
                lemma_views_of_entries(qs@);
            }
            if ps.len() != qs.len() {
                false
            } else {
                entries_included(ps, qs)
            }
        },
        _ => false,
    }
}

fn values_eq(xs: &Vec<MalType>, ys: &Vec<MalType>) -> (r: bool)
    ensures
        r == vals_eq(views_of(xs@), views_of(ys@)),
    decreases xs, 1int,
{
    proof {
        lemma_views_of(xs@);
        lemma_views_of(ys@);
    }
    let ghost xv = views_of(xs@);
    let ghost yv = views_of(ys@);
    if xs.len() != ys.len() {
        return false;
    }
    let mut i: usize = 0;
    proof {
        assert(xv.subrange(0, xv.len() as int) =~= xv);
        assert(yv.subrange(0, yv.len() as int) =~= yv);
    }
    while i < xs.len()
        invariant
            i <= xs@.len(),
            xs@.len() == ys@.len(),
            xv == views_of(xs@),
            yv == views_of(ys@),
            xv.len() == xs@.len(),
            yv.len() == ys@.len(),
            forall|j: int| 0 <= j < xs@.len() ==> xv[j] == xs@[j]@,
            forall|j: int| 0 <= j < ys@.len() ==> yv[j] == ys@[j]@,
            vals_eq(xv, yv) == vals_eq(
                xv.subrange(i as int, xv.len() as int),
                yv.subrange(i as int, yv.len() as int),
            ),
        decreases xs@.len() - i,
    {
        let ghost xsuf = xv.subrange(i as int, xv.len() as int);
        let ghost ysuf = yv.subrange(i as int, yv.len() as int);
        proof {
            assert(xsuf[0] == xv[i as int]);
            assert(ysuf[0] == yv[i as int]);
            assert(xsuf.drop_first() =~= xv.subrange(i as int + 1, xv.len() as int));
            assert(ysuf.drop_first() =~= yv.subrange(i as int + 1, yv.len() as int));
        }
        if !value_eq(&xs[i], &ys[i]) {
            return false;
        }
        i = i + 1;
    }
    proof {
        assert(xv.subrange(xv.len() as int, xv.len() as int) =~= Seq::<SpecValue>::empty());
        assert(yv.subrange(yv.len() as int, yv.len() as int) =~= Seq::<SpecValue>::empty());
    }
    true
}

/// The position of the first entry of `qs` whose key is `key`.
fn find_key(qs: &Vec<MapEntry>, key: &MalAtom) -> (r: Option<usize>)
    ensures
        match r {
            Some(j) => j < qs@.len() && key_first_index(views_of_entries(qs@), key@) == j as int,
            None => key_first_index(views_of_entries(qs@), key@) == -1,
        },
{
    proof {
        lemma_views_of_entries(qs@);
    }
    let ghost qv = views_of_entries(qs@);
    let mut j: usize = 0;
    while j < qs.len()
        invariant
            j <= qs@.len(),
            qv == views_of_entries(qs@),
            qv.len() == qs@.len(),
            forall|m: int| 0 <= m < qs@.len() ==> qv[m] == qs@[m]@,
            forall|m: int| 0 <= m < j ==> (#[trigger] qv[m].0) != key@,
        decreases qs@.len() - j,
    {
        if atom_eq(&qs[j].key, key) {
            proof {
                lemma_key_index_hit(qv, key@, j as int);
            }
            return Some(j);
        }
        j = j + 1;
    }
    proof {
        lemma_key_index_miss(qv, key@);
    }
    None
}

fn entries_included(ps: &Vec<MapEntry>, qs: &Vec<MapEntry>) -> (r: bool)
    ensures
        r == pairs_included(views_of_entries(ps@), views_of_entries(qs@)),
    decreases ps, 1int,
{
    proof {
        lemma_views_of_entries(ps@);
        lemma_views_of_entries(qs@);
    }
    let ghost pv = views_of_entries(ps@);
    let ghost qv = views_of_entries(qs@);
    let mut i: usize = 0;
    proof {
        assert(pv.subrange(0, pv.len() as int) =~= pv);
    }
    while i < ps.len()
        invariant
            i <= ps@.len(),
            pv == views_of_entries(ps@),
            qv == views_of_entries(qs@),
            pv.len() == ps@.len(),
            qv.len() == qs@.len(),
            forall|j: int| 0 <= j < ps@.len() ==> pv[j] == ps@[j]@,
            forall|j: int| 0 <= j < qs@.len() ==> qv[j] == qs@[j]@,
            pairs_included(pv, qv) == pairs_included(
                pv.subrange(i as int, pv.len() as int),
                qv,
            ),
        decreases ps@.len() - i,
    {
        let ghost psuf = pv.subrange(i as int, pv.len() as int);
        proof {
            assert(psuf[0] == pv[i as int]);
            assert(psuf.drop_first() =~= pv.subrange(i as int + 1, pv.len() as int));
            assert(decreases_to!(*ps => ps@[i as int]));
        }
        let j = match find_key(qs, &ps[i].key) {
            None => {
                return false;
            },
            Some(j) => j,
        };
        proof {
            assert(decreases_to!(*ps => ps@[i as int]));
        }
        if !value_eq(&ps[i].val, &qs[j].val) {
            return false;
        }
        i = i + 1;
    }
    proof {
        assert(pv.subrange(pv.len() as int, pv.len() as int) =~= Seq::<(
            SpecAtom,
            SpecValue,
        )>::empty());
    }
    true
}

impl PartialEq for MalType {
    /// Structural equality; function values never compare equal.
    fn eq(&self, other: &Self) -> (r: bool) {
        value_eq(self, other)
    }
}

impl vstd::std_specs::cmp::PartialEqSpecImpl for MalType {
    open spec fn obeys_eq_spec() -> bool {
        true
    }

    open spec fn eq_spec(&self, other: &MalType) -> bool {
        val_eq(self@, other@)
    }
}

} // verus!
