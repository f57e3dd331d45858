use vstd::prelude::*;

verus! {

// ---------------------------------------------------------------------------
// Values and their views
// ---------------------------------------------------------------------------

/// The mathematical value of a parsed JSON document.
pub ghost enum Json {
    Object(Map<Seq<char>, Json>),
    Array(Seq<Json>),
    Str(Seq<char>),
    /// The decimal digits before the point and the digits after it.
    Number(Seq<u8>, Seq<u8>),
    Bool(bool),
    Null,
}

/// Why a document was rejected.
#[derive(Debug, Clone, Copy, PartialEq, Eq, Structural)]
pub enum ParseError {
    /// The input ended where more text was needed.
    UnexpectedEnd,
    /// An object did not start with `{`.
    ExpectedLeftBrace,
    /// An array did not start with `[`.
    ExpectedLeftBracket,
    /// A key was not followed directly by `:`.
    ExpectedColon,
    /// A member or element was followed by something else than `,` or the closing bracket.
    ExpectedComma,
    /// A string did not start with `"`.
    ExpectedOpenQuote,
    /// A string was not closed by `"`.
    ExpectedCloseQuote,
    /// A number held more than one `.`.
    RepeatedPoint,
}

/// A parsed JSON value: an object, an array or a scalar.
pub enum Jobject {
    Jmap(Jmap),
    Jvec(Jvec),
    Jval(Jval),
}

/// An object: its members, each key at most once.
pub struct Jmap(Vec<Jpair>);

/// An array: its elements in order.
pub struct Jvec(Vec<Jobject>);

/// A member of an object: its key and its value.
pub struct Jpair(pub String, pub Jobject);

/// A scalar.
pub enum Jval {
    String(String),
    Number(Jnumber),
    Bool(bool),
    Null,
}

/// A number as written: the digit values before the point and after it.
pub struct Jnumber {
    pub int_digits: Vec<u8>,
    pub frac_digits: Vec<u8>,
}

impl View for Jobject {
    type V = Json;

    closed spec fn view(&self) -> Json
        decreases self,
    {
        match self {
            Jobject::Jmap(m) => Json::Object(entries_map(pair_entries(m.0@))),
            Jobject::Jvec(v) => Json::Array(item_views(v.0@)),
            Jobject::Jval(v) => v@,
        }
    }
}

impl View for Jval {
    type V = Json;

    open spec fn view(&self) -> Json {
        match self {
            Jval::String(s) => Json::Str(s@),
            Jval::Number(n) => Json::Number(n.int_digits@, n.frac_digits@),
            Jval::Bool(b) => Json::Bool(*b),
            Jval::Null => Json::Null,
        }
    }
}

/// The value of each element, in order.
pub closed spec fn item_views(vs: Seq<Jobject>) -> Seq<Json>
    decreases vs,
{
    Seq::new(vs.len(), |i: int| if 0 <= i < vs.len() { vs[i].view() } else { Json::Null })
}

/// The key and value of each member, in the order they are stored.
pub closed spec fn pair_entries(ps: Seq<Jpair>) -> Seq<(Seq<char>, Json)>
    decreases ps,
{
    Seq::new(
        ps.len(),
        |i: int|
            if 0 <= i < ps.len() {
                (ps[i].0@, ps[i].1.view())
            } else {
                (Seq::empty(), Json::Null)
            },
    )
}

/// The map that inserting the entries of `ps` in order builds: a later key replaces an earlier one.
pub open spec fn entries_map(ps: Seq<(Seq<char>, Json)>) -> Map<Seq<char>, Json>
    decreases ps.len(),
{
    if ps.len() == 0 {
        Map::empty()
    } else {
        entries_map(ps.drop_last()).insert(ps.last().0, ps.last().1)
    }
}

/// No key occurs twice among the entries.
pub open spec fn keys_distinct(ps: Seq<(Seq<char>, Json)>) -> bool {
    forall|a: int, b: int| 0 <= a < b < ps.len() ==> ps[a].0 != ps[b].0
}

/// Replacing the value of a present key updates the map built from the entries.
pub proof fn lemma_entries_map_update(es: Seq<(Seq<char>, Json)>, i: int, k: Seq<char>, v: Json)
    requires
        keys_distinct(es),
        0 <= i < es.len(),
        es[i].0 == k,
    ensures
        entries_map(es.update(i, (k, v))) == entries_map(es).insert(k, v),
    decreases es.len(),
{
    let n = es.len() - 1;
    let us = es.update(i, (k, v));
    if i == n {
        assert(us.drop_last() =~= es.drop_last());
        assert(entries_map(us) =~= entries_map(es).insert(k, v));
    } else {
        assert(us.drop_last() =~= es.drop_last().update(i, (k, v)));
        lemma_entries_map_update(es.drop_last(), i, k, v);
        assert(es.last().0 != k);
        assert(entries_map(us) =~= entries_map(es).insert(k, v));
    }
}

/// In the map built from entries whose keys are distinct, each entry's key maps to its value.
pub proof fn lemma_entries_map_lookup(es: Seq<(Seq<char>, Json)>, i: int)
    requires
        keys_distinct(es),
        0 <= i < es.len(),
    ensures
        entries_map(es).contains_key(es[i].0),
        entries_map(es)[es[i].0] == es[i].1,
    decreases es.len(),
{
    if i < es.len() - 1 {
        lemma_entries_map_lookup(es.drop_last(), i);
    }
}

/// A key that no entry holds is absent from the map built from the entries.
pub proof fn lemma_entries_map_absent(es: Seq<(Seq<char>, Json)>, k: Seq<char>)
    requires
        forall|i: int| 0 <= i < es.len() ==> (#[trigger] es[i]).0 != k,
    ensures
        !entries_map(es).contains_key(k),
    decreases es.len(),
{
    if es.len() > 0 {
        lemma_entries_map_absent(es.drop_last(), k);
    }
}

impl Jmap {
    #[verifier::type_invariant]
    closed spec fn wf(self) -> bool {
        keys_distinct(pair_entries(self.0@))
    }
}

impl View for Jmap {
    type V = Map<Seq<char>, Json>;

    closed spec fn view(&self) -> Map<Seq<char>, Json> {
        entries_map(pair_entries(self.0@))
    }
}

impl View for Jvec {
    type V = Seq<Json>;

    closed spec fn view(&self) -> Seq<Json> {
        item_views(self.0@)
    }
}

impl Jnumber {
    /// The digits before the point and the digits after it.
    pub open spec fn view_digits(self) -> (Seq<u8>, Seq<u8>) {
        (self.int_digits@, self.frac_digits@)
    }
}

/// The views of the elements, one for one.
pub broadcast proof fn lemma_item_views(vs: Seq<Jobject>)
    ensures
        (#[trigger] item_views(vs)).len() == vs.len(),
        forall|i: int| 0 <= i < vs.len() ==> #[trigger] item_views(vs)[i] == vs[i]@,
{
}

/// The key and value views of the members, one for one.
pub broadcast proof fn lemma_pair_entries(ps: Seq<Jpair>)
    ensures
        (#[trigger] pair_entries(ps)).len() == ps.len(),
        forall|i: int| 0 <= i < ps.len() ==> #[trigger] pair_entries(ps)[i] == (ps[i].0@, ps[i].1@),
{
}

/// `Jobject`'s view agrees with the views of its parts.
pub broadcast proof fn lemma_jobject_view(o: Jobject)
    ensures
        #[trigger] o@ == match o {
            Jobject::Jmap(m) => Json::Object(m@),
            Jobject::Jvec(v) => Json::Array(v@),
            Jobject::Jval(v) => v@,
        },
{
}

// ---------------------------------------------------------------------------
// Building and reading parsed values
// ---------------------------------------------------------------------------

impl Jmap {
    /// The object with the members `pairs`, whose keys are distinct.
    pub(crate) fn from_pairs(pairs: Vec<Jpair>) -> (m: Jmap)
        requires
            keys_distinct(pair_entries(pairs@)),
        ensures
            m@ == entries_map(pair_entries(pairs@)),
    {
        Jmap(pairs)
    }
}

impl Jvec {
    /// The array with the elements `items`.
    pub(crate) fn from_items(items: Vec<Jobject>) -> (v: Jvec)
        ensures
            v@ == item_views(items@),
    {
        Jvec(items)
    }
}

impl Jmap {
    /// The value of the member with key `key`, which must be present.
    pub fn index(&self, key: String) -> (r: &Jobject)
        requires
            self@.contains_key(key@),
        ensures
            r@ == self@[key@],
    {
        proof {
            use_type_invariant(self);
        }
        broadcast use lemma_pair_entries;
        let ghost es = pair_entries(self.0@);
        let mut i: usize = 0;
        while i < self.0.len()
            invariant
                es == pair_entries(self.0@),
                keys_distinct(es),
                self@ == entries_map(es),
                self@.contains_key(key@),
                i <= self.0.len(),
                forall|m: int| 0 <= m < i ==> (#[trigger] es[m]).0 != key@,
            decreases self.0.len() - i,
        {
            if self.0[i].0 == key {
                proof {
                    lemma_entries_map_lookup(es, i as int);
                }
                return &self.0[i].1;
            }
            i = i + 1;
        }
        proof {
            lemma_entries_map_absent(es, key@);
        }
        unreached()
    }
}

impl Jvec {
    /// The number of elements.
    pub fn len(&self) -> (n: usize)
        ensures
            n == self@.len(),
    {
        broadcast use lemma_item_views;
        self.0.len()
    }

    /// The element at position `i`, which must exist.
    pub fn index(&self, i: usize) -> (r: &Jobject)
        requires
            i < self@.len(),
        ensures
            r@ == self@[i as int],
    {
        broadcast use lemma_item_views;
        &self.0[i]
    }
}

/// The integer that the decimal digits `ds` spell, most significant first.
pub open spec fn digits_value(ds: Seq<u8>) -> nat
    decreases ds.len(),
{
    if ds.len() == 0 {
        0
    } else {
        digits_value(ds.drop_last()) * 10 + ds.last() as nat
    }
}

/// A prefix of the digits spells no larger an integer than the whole.
pub proof fn lemma_digits_value_prefix(ds: Seq<u8>, j: int)
    requires
        0 <= j <= ds.len(),
    ensures
        digits_value(ds.take(j)) <= digits_value(ds),
    decreases ds.len(),
{
    if j == ds.len() {
        assert(ds.take(j) =~= ds);
    } else {
        lemma_digits_value_prefix(ds.drop_last(), j);
        assert(ds.drop_last().take(j) =~= ds.take(j));
    }
}

/// Extends the integer `m`, which `before` spells, by the digits `ds`; `None` past `u64::MAX`.
fn extend_value(m: u64, ds: &Vec<u8>, Ghost(before): Ghost<Seq<u8>>) -> (r: Option<u64>)
    requires
        m == digits_value(before),
    ensures
        match r {
            Some(x) => x == digits_value(before + ds@),
            None => digits_value(before + ds@) > u64::MAX,
        },
{
    let mut m = m;
    let mut k: usize = 0;
    assert(before + ds@.take(0) =~= before);
    while k < ds.len()
        invariant
            k <= ds.len(),
            m == digits_value(before + ds@.take(k as int)),
        decreases ds.len() - k,
    {
        let d = ds[k];
        assert((before + ds@.take(k + 1)).drop_last() =~= before + ds@.take(k as int));
        let next = match m.checked_mul(10) {
            Some(t) => t.checked_add(d as u64),
            None => None,
        };
        match next {
            Some(n) => {
                m = n;
            },
            None => {
                proof {
                    assert((before + ds@).take(before.len() + k + 1) =~= before + ds@.take(k + 1));
                    lemma_digits_value_prefix(before + ds@, before.len() + k + 1);
                }
                return None;
            },
        }
        k = k + 1;
    }
    assert(ds@.take(ds.len() as int) =~= ds@);
    Some(m)
}

impl Jnumber {
    /// The number as `mantissa / 10^scale`: the mantissa that all the digits spell and the
    /// count of digits after the point; `None` where either does not fit its type.
    pub fn to_decimal(&self) -> (r: Option<(u64, u32)>)
        ensures
            match r {
                Some((m, sc)) => m == digits_value(self.int_digits@ + self.frac_digits@)
                    && sc == self.frac_digits.len(),
                None => digits_value(self.int_digits@ + self.frac_digits@) > u64::MAX
                    || self.frac_digits.len() > u32::MAX,
            },
    {
        let b = self.frac_digits.len();
        if b as u64 > 0xffff_ffffu64 {
            return None;
        }
        assert(Seq::<u8>::empty() + self.int_digits@ =~= self.int_digits@);
        let m = match extend_value(0, &self.int_digits, Ghost(Seq::empty())) {
            Some(x) => x,
            None => {
                proof {
                    let all = self.int_digits@ + self.frac_digits@;
                    assert(all.take(self.int_digits@.len() as int) =~= self.int_digits@);
                    lemma_digits_value_prefix(all, self.int_digits@.len() as int);
                }
                return None;
            },
        };
        match extend_value(m, &self.frac_digits, Ghost(self.int_digits@)) {
            Some(x) => Some((x, b as u32)),
            None => None,
        }
    }
}

} // verus!
