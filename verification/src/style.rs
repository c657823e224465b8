//! The style model: stylesheets, rules, selectors with their specificity,
//! declarations and values, plus the stable specificity sort that orders a
//! rule's selector list.
//!
//! Specificity is the derived triple (id count, class count, tag count),
//! compared lexicographically. A rule's selectors are sorted descending by
//! that triple with `spec_sort`, a stable insertion sort proved sorted and
//! stable below.

use vstd::prelude::*;

use vstd::multiset::Multiset;

verus! {

/// A parsed stylesheet: its rules in source order.
#[derive(Debug)]
pub struct StyleSheet {
    /// the rules, in source order
    pub rules: Vec<Rule>,
}

/// One style block, like `div.note { margin: 20px; }`.
#[derive(Debug)]
pub struct Rule {
    /// selector list, sorted descending by specificity
    pub selectors: Vec<Selector>,

    /// declaration list, in source order, duplicates kept
    pub declarations: Vec<Declaration>,
}

/// The derived priority triple of a selector: a selector with higher
/// specificity overrides one with lower specificity in a later cascade
/// step, performed outside this crate.
pub type Specificity = (usize, usize, usize);

/// A selector; only simple selectors (no combinators) exist here.
#[derive(Debug)]
pub enum Selector {
    Simple(SimpleSelector),
}

/// A simple selector without any combinator, like `div#id.note`.
#[derive(Debug)]
pub struct SimpleSelector {
    /// tag name, like `div`
    pub tag_name: Option<String>,

    /// id, like `#dog`
    pub id: Option<String>,

    /// class names, like `.apple`
    pub class: Vec<String>,
}

/// A name/value pair, like `margin: auto`.
#[derive(Debug)]
pub struct Declaration {
    pub name: String,
    pub value: Value,
}

/// A declaration's value.
#[derive(Debug)]
pub enum Value {
    Keyword(String),
    Length(Number, Unit),
    ColorValue(Color),
}

/// A decimal number literal, kept exactly: an optional minus sign and the
/// digit runs before and after the decimal point.
#[derive(Debug, PartialEq, Eq)]
pub struct Number {
    pub negative: bool,
    pub int_digits: String,
    pub frac_digits: String,
}

/// The closed set of length units.
#[derive(Clone, Copy, Debug, PartialEq, Eq, Structural)]
pub enum Unit {
    Px,
}

/// A color with one byte per channel; alpha 255 is opaque.
#[derive(Clone, Copy, Debug, PartialEq, Eq, Structural)]
pub struct Color {
    pub r: u8,
    pub g: u8,
    pub b: u8,
    pub a: u8,
}

/// The abstract value of an `Option<String>`.
pub open spec fn opt_view(o: Option<String>) -> Option<Seq<char>> {
    match o {
        Some(s) => Some(s@),
        None => None,
    }
}

/// The abstract values of a vector of strings, in order.
pub open spec fn strings_view(v: Seq<String>) -> Seq<Seq<char>> {
    Seq::new(v.len(), |i: int| v[i]@)
}

/// The abstract value of a simple selector.
pub struct SimpleSelectorView {
    pub tag_name: Option<Seq<char>>,
    pub id: Option<Seq<char>>,
    pub class: Seq<Seq<char>>,
}

/// The abstract value of a selector.
pub enum SelectorView {
    Simple(SimpleSelectorView),
}

/// The abstract value of a number literal.
pub struct NumberView {
    pub negative: bool,
    pub int_digits: Seq<char>,
    pub frac_digits: Seq<char>,
}

/// The abstract value of a declaration value.
pub enum ValueView {
    Keyword(Seq<char>),
    Length(NumberView, Unit),
    ColorValue(Color),
}

/// The abstract value of a declaration.
pub struct DeclarationView {
    pub name: Seq<char>,
    pub value: ValueView,
}

/// The abstract value of a rule.
pub struct RuleView {
    pub selectors: Seq<SelectorView>,
    pub declarations: Seq<DeclarationView>,
}

impl View for SimpleSelector {
    type V = SimpleSelectorView;

    open spec fn view(&self) -> SimpleSelectorView {
        SimpleSelectorView {
            tag_name: opt_view(self.tag_name),
            id: opt_view(self.id),
            class: strings_view(self.class@),
        }
    }
}

impl View for Selector {
    type V = SelectorView;

    open spec fn view(&self) -> SelectorView {
        match self {
            Selector::Simple(ss) => SelectorView::Simple(ss@),
        }
    }
}

impl View for Number {
    type V = NumberView;

    open spec fn view(&self) -> NumberView {
        NumberView {
            negative: self.negative,
            int_digits: self.int_digits@,
            frac_digits: self.frac_digits@,
        }
    }
}

impl View for Value {
    type V = ValueView;

    open spec fn view(&self) -> ValueView {
        match self {
            Value::Keyword(s) => ValueView::Keyword(s@),
            Value::Length(n, u) => ValueView::Length(n@, *u),
            Value::ColorValue(c) => ValueView::ColorValue(*c),
        }
    }
}

impl View for Declaration {
    type V = DeclarationView;

    open spec fn view(&self) -> DeclarationView {
        DeclarationView { name: self.name@, value: self.value@ }
    }
}

/// The abstract values of a vector of selectors, in order.
pub open spec fn selectors_view(v: Seq<Selector>) -> Seq<SelectorView> {
    Seq::new(v.len(), |i: int| v[i]@)
}

/// The abstract values of a vector of declarations, in order.
pub open spec fn declarations_view(v: Seq<Declaration>) -> Seq<DeclarationView> {
    Seq::new(v.len(), |i: int| v[i]@)
}

impl View for Rule {
    type V = RuleView;

    open spec fn view(&self) -> RuleView {
        RuleView {
            selectors: selectors_view(self.selectors@),
            declarations: declarations_view(self.declarations@),
        }
    }
}

/// The abstract values of a vector of rules, in order.
pub open spec fn rules_view(v: Seq<Rule>) -> Seq<RuleView> {
    Seq::new(v.len(), |i: int| v[i]@)
}

impl View for StyleSheet {
    type V = Seq<RuleView>;

    open spec fn view(&self) -> Seq<RuleView> {
        rules_view(self.rules@)
    }
}

/// The specificity of a selector: (id count, class count, tag count).
pub open spec fn spec_specificity(s: SelectorView) -> (int, int, int) {
    match s {
        SelectorView::Simple(ss) => (
            if ss.id is Some {
                1int
            } else {
                0int
            },
            ss.class.len() as int,
            if ss.tag_name is Some {
                1int
            } else {
                0int
            },
        ),
    }
}

impl Selector {
    /// get the specificity of a selector
    pub fn specificity(&self) -> (r: Specificity)
        ensures
            (r.0 as int, r.1 as int, r.2 as int) == spec_specificity(self@),
    {
        let Selector::Simple(simple) = self;
        let a: usize = if simple.id.is_some() {
            1
        } else {
            0
        };
        let b: usize = simple.class.len();
        let c: usize = if simple.tag_name.is_some() {
            1
        } else {
            0
        };
        (a, b, c)
    }
}

/// Lexicographic "at least as specific as" on specificity triples.
pub open spec fn spec_ge(a: (int, int, int), b: (int, int, int)) -> bool {
    a.0 > b.0 || (a.0 == b.0 && (a.1 > b.1 || (a.1 == b.1 && a.2 >= b.2)))
}

/// Executable lexicographic comparison matching `spec_ge`.
pub fn specificity_ge(a: Specificity, b: Specificity) -> (r: bool)
    ensures
        r == spec_ge((a.0 as int, a.1 as int, a.2 as int), (b.0 as int, b.1 as int, b.2 as int)),
{
    a.0 > b.0 || (a.0 == b.0 && (a.1 > b.1 || (a.1 == b.1 && a.2 >= b.2)))
}

/// The selector list is sorted descending by specificity.
pub open spec fn sorted_desc(l: Seq<SelectorView>) -> bool {
    forall|i: int, j: int|
        0 <= i < j < l.len() ==> spec_ge(
            spec_specificity(#[trigger] l[i]),
            spec_specificity(#[trigger] l[j]),
        )
}

/// Insert `x` into `l` behind every element at least as specific: where a
/// stable descending insertion sort puts it.
pub open spec fn spec_insert(l: Seq<SelectorView>, x: SelectorView) -> Seq<SelectorView>
    decreases l.len(),
{
    if l.len() == 0 {
        seq![x]
    } else if spec_ge(spec_specificity(l.last()), spec_specificity(x)) {
        l.push(x)
    } else {
        spec_insert(l.drop_last(), x).push(l.last())
    }
}

/// Stable insertion sort, descending by specificity: what `parse_selectors`
/// returns for the list it collected in source order.
pub open spec fn spec_sort(l: Seq<SelectorView>) -> Seq<SelectorView>
    decreases l.len(),
{
    if l.len() == 0 {
        Seq::empty()
    } else {
        spec_insert(spec_sort(l.drop_last()), l.last())
    }
}

/// The subsequence of `l` whose elements have specificity exactly `t`, in
/// their original order.
pub open spec fn with_specificity(l: Seq<SelectorView>, t: (int, int, int)) -> Seq<SelectorView>
    decreases l.len(),
{
    if l.len() == 0 {
        Seq::empty()
    } else if spec_specificity(l.last()) == t {
        with_specificity(l.drop_last(), t).push(l.last())
    } else {
        with_specificity(l.drop_last(), t)
    }
}

/// Every element of `spec_insert(l, x)` is `x` itself or one of `l`'s
/// elements, and there is one element more than in `l`.
proof fn lemma_insert_elems(l: Seq<SelectorView>, x: SelectorView)
    ensures
        spec_insert(l, x).len() == l.len() + 1,
        forall|i: int|
            0 <= i < spec_insert(l, x).len() ==> (#[trigger] spec_insert(l, x)[i]) == x
                || exists|k: int| 0 <= k < l.len() && l[k] == spec_insert(l, x)[i],
    decreases l.len(),
{
    let r = spec_insert(l, x);
    if l.len() == 0 {
        assert forall|i: int| 0 <= i < r.len() implies (#[trigger] r[i]) == x || exists|k: int|
            0 <= k < l.len() && l[k] == r[i] by {
            assert(r[0] == x);
        }
    } else if spec_ge(spec_specificity(l.last()), spec_specificity(x)) {
        assert forall|i: int| 0 <= i < r.len() implies (#[trigger] r[i]) == x || exists|k: int|
            0 <= k < l.len() && l[k] == r[i] by {
            if i < l.len() {
                assert(l[i] == r[i]);
            } else {
                assert(r[i] == x);
            }
        }
    } else {
        lemma_insert_elems(l.drop_last(), x);
        let m = spec_insert(l.drop_last(), x);
        assert forall|i: int| 0 <= i < r.len() implies (#[trigger] r[i]) == x || exists|k: int|
            0 <= k < l.len() && l[k] == r[i] by {
            if i < m.len() {
                assert(r[i] == m[i]);
                if m[i] != x {
                    let k = choose|k: int| 0 <= k < l.drop_last().len() && l.drop_last()[k] == m[i];
                    assert(l[k] == m[i]);
                }
            } else {
                assert(r[i] == l.last());
                assert(l[l.len() - 1] == r[i]);
            }
        }
    }
}

/// `spec_insert` keeps a descending-sorted list sorted.
proof fn lemma_insert_sorted(l: Seq<SelectorView>, x: SelectorView)
    requires
        sorted_desc(l),
    ensures
        sorted_desc(spec_insert(l, x)),
    decreases l.len(),
{
    let r = spec_insert(l, x);
    if l.len() == 0 {
    } else if spec_ge(spec_specificity(l.last()), spec_specificity(x)) {
        assert forall|i: int, j: int| 0 <= i < j < r.len() implies spec_ge(
            spec_specificity(#[trigger] r[i]),
            spec_specificity(#[trigger] r[j]),
        ) by {
            if j < l.len() {
                assert(spec_ge(spec_specificity(l[i]), spec_specificity(l[j])));
            } else {
                assert(r[j] == x);
                assert(r[i] == l[i]);
                if i < l.len() - 1 {
                    assert(spec_ge(spec_specificity(l[i]), spec_specificity(l[l.len() - 1])));
                }
            }
        }
    } else {
        assert(sorted_desc(l.drop_last())) by {
            assert forall|i: int, j: int| 0 <= i < j < l.drop_last().len() implies spec_ge(
                spec_specificity(#[trigger] l.drop_last()[i]),
                spec_specificity(#[trigger] l.drop_last()[j]),
            ) by {
                assert(spec_ge(spec_specificity(l[i]), spec_specificity(l[j])));
            }
        }
        lemma_insert_sorted(l.drop_last(), x);
        lemma_insert_elems(l.drop_last(), x);
        let m = spec_insert(l.drop_last(), x);
        assert forall|i: int, j: int| 0 <= i < j < r.len() implies spec_ge(
            spec_specificity(#[trigger] r[i]),
            spec_specificity(#[trigger] r[j]),
        ) by {
            if j < m.len() {
                assert(spec_ge(spec_specificity(m[i]), spec_specificity(m[j])));
            } else {
                assert(r[j] == l.last());
                assert(r[i] == m[i]);
                if m[i] == x {
                    assert(spec_ge(spec_specificity(x), spec_specificity(l.last())));
                } else {
                    let k = choose|k: int| 0 <= k < l.drop_last().len() && l.drop_last()[k] == m[i];
                    assert(spec_ge(spec_specificity(l[k]), spec_specificity(l[l.len() - 1])));
                }
            }
        }
    }
}

/// `spec_insert` adds exactly `x` to the list's contents.
proof fn lemma_insert_multiset(l: Seq<SelectorView>, x: SelectorView)
    ensures
        spec_insert(l, x).to_multiset() == l.to_multiset().insert(x),
    decreases l.len(),
{
    broadcast use vstd::seq_lib::group_to_multiset_ensures;

    if l.len() == 0 {
        assert(spec_insert(l, x) =~= Seq::<SelectorView>::empty().push(x));
        assert(l.to_multiset() =~= Multiset::<SelectorView>::empty());
    } else if spec_ge(spec_specificity(l.last()), spec_specificity(x)) {
    } else {
        lemma_insert_multiset(l.drop_last(), x);
        assert(l.drop_last().push(l.last()) =~= l);
        assert(spec_insert(l, x).to_multiset() =~= spec_insert(l.drop_last(), x).to_multiset()
            .insert(l.last()));
        assert(l.to_multiset() =~= l.drop_last().to_multiset().insert(l.last()));
        assert(l.drop_last().to_multiset().insert(x).insert(l.last()) =~= l.drop_last()
            .to_multiset().insert(l.last()).insert(x));
    }
}

/// How `spec_insert` changes a specificity class: `x` is appended to its
/// own class, every other class is untouched.
proof fn lemma_insert_stable(l: Seq<SelectorView>, x: SelectorView, t: (int, int, int))
    ensures
        with_specificity(spec_insert(l, x), t) == if spec_specificity(x) == t {
            with_specificity(l, t).push(x)
        } else {
            with_specificity(l, t)
        },
    decreases l.len(),
{
    let r = spec_insert(l, x);
    if l.len() == 0 {
        assert(r == seq![x]);
        assert(r.drop_last() =~= Seq::<SelectorView>::empty());
        assert(r.last() == x);
        assert(with_specificity(l, t) == Seq::<SelectorView>::empty());
        if spec_specificity(x) == t {
            assert(with_specificity(r, t) == with_specificity(r.drop_last(), t).push(x));
        } else {
            assert(with_specificity(r, t) == with_specificity(r.drop_last(), t));
        }
    } else if spec_ge(spec_specificity(l.last()), spec_specificity(x)) {
        assert(r == l.push(x));
        assert(r.drop_last() =~= l);
        assert(r.last() == x);
        if spec_specificity(x) == t {
            assert(with_specificity(r, t) == with_specificity(l, t).push(x));
        } else {
            assert(with_specificity(r, t) == with_specificity(l, t));
        }
    } else {
        lemma_insert_stable(l.drop_last(), x, t);
        let m = spec_insert(l.drop_last(), x);
        assert(r == m.push(l.last()));
        assert(r.drop_last() =~= m);
        assert(r.last() == l.last());
        if spec_specificity(l.last()) == t && spec_specificity(x) == t {
            assert(spec_ge(spec_specificity(l.last()), spec_specificity(x)));
        }
        if spec_specificity(l.last()) == t {
            assert(with_specificity(r, t) == with_specificity(m, t).push(l.last()));
            assert(with_specificity(l, t) == with_specificity(l.drop_last(), t).push(l.last()));
        } else {
            assert(with_specificity(r, t) == with_specificity(m, t));
            assert(with_specificity(l, t) == with_specificity(l.drop_last(), t));
        }
    }
}

/// Where all elements from `k` on are strictly less specific than `x` and
/// the one before `k` (if any) is not, `spec_insert` puts `x` exactly at
/// `k`.
proof fn lemma_spec_insert_at(l: Seq<SelectorView>, x: SelectorView, k: int)
    requires
        0 <= k <= l.len(),
        forall|i: int| k <= i < l.len() ==> !spec_ge(spec_specificity(#[trigger] l[i]), spec_specificity(x)),
        k > 0 ==> spec_ge(spec_specificity(l[k - 1]), spec_specificity(x)),
    ensures
        spec_insert(l, x) == l.subrange(0, k).push(x) + l.subrange(k, l.len() as int),
    decreases l.len(),
{
    if l.len() == 0 {
        assert(spec_insert(l, x) =~= l.subrange(0, 0).push(x) + l.subrange(0, 0));
    } else if spec_ge(spec_specificity(l.last()), spec_specificity(x)) {
        assert(k == l.len()) by {
            if k < l.len() {
                assert(!spec_ge(spec_specificity(l[l.len() - 1]), spec_specificity(x)));
            }
        }
        assert(spec_insert(l, x) =~= l.subrange(0, k).push(x) + l.subrange(k, l.len() as int));
    } else {
        assert(k < l.len()) by {
            if k == l.len() {
                assert(spec_ge(spec_specificity(l[k - 1]), spec_specificity(x)));
            }
        }
        assert forall|i: int| k <= i < l.drop_last().len() implies !spec_ge(
            spec_specificity(#[trigger] l.drop_last()[i]),
            spec_specificity(x),
        ) by {
            assert(!spec_ge(spec_specificity(l[i]), spec_specificity(x)));
        }
        if k > 0 {
            assert(l.drop_last()[k - 1] == l[k - 1]);
        }
        lemma_spec_insert_at(l.drop_last(), x, k);
        assert(spec_insert(l, x) == spec_insert(l.drop_last(), x).push(l.last()));
        assert(spec_insert(l, x) =~= l.subrange(0, k).push(x) + l.subrange(k, l.len() as int));
    }
}

/// Insert one selector into an already sorted vector, behind every element
/// at least as specific: one step of the stable insertion sort.
fn insert_sorted(v: &mut Vec<Selector>, x: Selector)
    ensures
        selectors_view(final(v)@) == spec_insert(selectors_view(old(v)@), x@),
{
    let ghost l = selectors_view(old(v)@);
    let xs = x.specificity();
    let mut k: usize = v.len();
    loop
        invariant
            v@ == old(v)@,
            k <= v.len(),
            l == selectors_view(v@),
            (xs.0 as int, xs.1 as int, xs.2 as int) == spec_specificity(x@),
            forall|i: int| k <= i < l.len() ==> !spec_ge(
                spec_specificity(#[trigger] l[i]),
                spec_specificity(x@),
            ),
        ensures
            v@ == old(v)@,
            k <= v.len(),
            forall|i: int| k <= i < l.len() ==> !spec_ge(
                spec_specificity(#[trigger] l[i]),
                spec_specificity(x@),
            ),
            k > 0 ==> spec_ge(spec_specificity(l[k - 1]), spec_specificity(x@)),
        decreases k,
    {
        if k == 0 {
            break;
        }
        let sp = v[k - 1].specificity();
        if specificity_ge(sp, xs) {
            break;
        }
        k = k - 1;
    }
    proof {
        lemma_spec_insert_at(l, x@, k as int);
    }
    v.insert(k, x);
    proof {
        assert(selectors_view(v@) =~= l.subrange(0, k as int).push(x@) + l.subrange(
            k as int,
            l.len() as int,
        ));
    }
}

/// Sort a selector list descending by specificity with a stable insertion
/// sort: the result is exactly `spec_sort` of the input.
pub fn sort_selectors(v: Vec<Selector>) -> (r: Vec<Selector>)
    ensures
        selectors_view(r@) == spec_sort(selectors_view(v@)),
{
    let ghost whole = selectors_view(v@);
    let mut input = v;
    let mut out: Vec<Selector> = Vec::new();
    proof {
        assert(selectors_view(out@) =~= spec_sort(whole.subrange(0, 0)));
        assert(selectors_view(input@) =~= whole.subrange(0, whole.len() as int));
    }
    while input.len() > 0
        invariant
            input@.len() <= whole.len(),
            selectors_view(input@) == whole.subrange(
                whole.len() - input@.len(),
                whole.len() as int,
            ),
            selectors_view(out@) == spec_sort(whole.subrange(0, whole.len() - input@.len())),
        decreases input@.len(),
    {
        let ghost done = whole.len() - input@.len();
        let ghost pre = input@;
        let x = input.remove(0);
        proof {
            assert(x@ == selectors_view(pre)[0]);
            assert(selectors_view(pre)[0] == whole[done]);
            assert forall|m: int| 0 <= m < input@.len() implies selectors_view(input@)[m]
                == whole.subrange(done + 1, whole.len() as int)[m] by {
                assert(input@[m] == pre[m + 1]);
                assert(selectors_view(pre)[m + 1] == pre[m + 1]@);
                assert(selectors_view(pre)[m + 1] == whole.subrange(done, whole.len() as int)[m
                    + 1]);
            }
            assert(selectors_view(input@) =~= whole.subrange(done + 1, whole.len() as int));
        }
        insert_sorted(&mut out, x);
        proof {
            assert(whole.subrange(0, done + 1).drop_last() =~= whole.subrange(0, done));
            assert(whole.subrange(0, done + 1).last() == whole[done]);
        }
    }
    proof {
        assert(whole.subrange(0, whole.len() as int) =~= whole);
    }
    out
}

/// LAW (sortedness): the selector order produced for a rule is descending
/// by specificity — every earlier selector is at least as specific as every
/// later one — and no selector is gained or lost: the sorted list holds
/// exactly the collected selectors.
pub proof fn lemma_sort_sorted(l: Seq<SelectorView>)
    ensures
        sorted_desc(spec_sort(l)),
        spec_sort(l).to_multiset() == l.to_multiset(),
        spec_sort(l).len() == l.len(),
    decreases l.len(),
{
    broadcast use vstd::seq_lib::group_to_multiset_ensures;

    if l.len() > 0 {
        lemma_sort_sorted(l.drop_last());
        lemma_insert_sorted(spec_sort(l.drop_last()), l.last());
        lemma_insert_elems(spec_sort(l.drop_last()), l.last());
        lemma_insert_multiset(spec_sort(l.drop_last()), l.last());
        assert(l.drop_last().push(l.last()) =~= l);
        assert(l.to_multiset() =~= l.drop_last().to_multiset().insert(l.last()));
    }
}

/// LAW (stability): sorting preserves the original relative order of
/// selectors of equal specificity — for every specificity `t`, the
/// subsequence of selectors with specificity `t` is the same before and
/// after sorting.
pub proof fn lemma_sort_stable(l: Seq<SelectorView>, t: (int, int, int))
    ensures
        with_specificity(spec_sort(l), t) == with_specificity(l, t),
    decreases l.len(),
{
    if l.len() > 0 {
        lemma_sort_stable(l.drop_last(), t);
        lemma_insert_stable(spec_sort(l.drop_last()), l.last(), t);
    }
}

} // verus!
