//! The `Service` unit type: one discovered, independently addressable
//! service target, and the `(name, variant)` order that discovery results
//! are listed in.

use vstd::prelude::*;
use vstd::string::StringExecFns;

use crate::strutil::{
    clone_strings, lemma_lex_connected, lemma_lex_le_trans, lemma_lex_lt_asym, lemma_lex_lt_trans,
    lex_le, lex_lt, str_eq, str_lt, views_of,
};

verus! {

/// The mathematical model of a `Service`.
pub struct ServiceModel {
    pub name: Seq<char>,
    pub path: Seq<char>,
    pub compose_files: Seq<Seq<char>>,
    pub variant: Option<Seq<char>>,
}

/// A discovered, independently addressable service target.
#[derive(Clone, Debug)]
pub struct Service {
    /// Directory-derived identifier; not globally unique on its own.
    pub name: String,
    /// Directory the external command must execute from.
    pub path: String,
    /// Descriptor files to name explicitly; empty means "defer to the
    /// external tool's own base+override auto-merge".
    pub compose_files: Vec<String>,
    /// Qualifier distinguishing several definitions found in one directory,
    /// e.g. `Some("prod")`; `None` for an unambiguous single definition.
    pub variant: Option<String>,
}

impl View for Service {
    type V = ServiceModel;

    open spec fn view(&self) -> ServiceModel {
        ServiceModel {
            name: self.name@,
            path: self.path@,
            compose_files: views_of(self.compose_files@),
            variant: match self.variant {
                Option::None => Option::None,
                Option::Some(v) => Option::Some(v@),
            },
        }
    }
}

/// The models of a sequence of services.
pub open spec fn models_of(s: Seq<Service>) -> Seq<ServiceModel> {
    s.map_values(|x: Service| x@)
}

/// The display label of a service: its name alone, or `"name (variant)"`.
pub open spec fn label_of(m: ServiceModel) -> Seq<char> {
    match m.variant {
        Option::None => m.name,
        Option::Some(v) => m.name + " ("@ + v + ")"@,
    }
}

impl Service {
    /// Clean label for results/status display, e.g. "rabbitmq" or
    /// "rabbitmq (prod)".
    pub fn label(&self) -> (r: String)
        ensures
            r@ == label_of(self@),
    {
        match &self.variant {
            Option::None => self.name.clone(),
            Option::Some(v) => {
                let mut s = self.name.clone();
                s.append(" (");
                s.append(v.as_str());
                s.append(")");
                s
            },
        }
    }

    /// A fresh copy with the same model.
    pub fn duplicate(&self) -> (r: Service)
        ensures
            r@ == self@,
    {
        Service {
            name: self.name.clone(),
            path: self.path.clone(),
            compose_files: clone_strings(&self.compose_files),
            variant: match &self.variant {
                Option::None => Option::None,
                Option::Some(v) => Option::Some(v.clone()),
            },
        }
    }
}

/// A name free of parentheses, as directory-derived names are.
pub open spec fn plain_name(n: Seq<char>) -> bool {
    forall|i: int| 0 <= i < n.len() ==> n[i] != '('
}

/// The characters of a variant label `name + " (" + v + ")"`, position by
/// position.
proof fn lemma_label_chars(n: Seq<char>, v: Seq<char>)
    ensures
        (n + " ("@ + v + ")"@).len() == n.len() + v.len() + 3,
        forall|j: int| 0 <= j < n.len() ==> (n + " ("@ + v + ")"@)[j] == n[j],
        (n + " ("@ + v + ")"@)[n.len() as int] == ' ',
        (n + " ("@ + v + ")"@)[n.len() + 1int] == '(',
        forall|j: int| 0 <= j < v.len() ==> (n + " ("@ + v + ")"@)[n.len() + 2 + j] == v[j],
{
    reveal_strlit(" (");
    reveal_strlit(")");
    let l = n + " ("@ + v + ")"@;
    assert(" ("@.len() == 2);
    assert(")"@.len() == 1);
    assert(" ("@[0] == ' ');
    assert(" ("@[1] == '(');
    assert(l[n.len() as int] == ' ');
    assert(l[n.len() + 1int] == '(');
    assert forall|j: int| 0 <= j < v.len() implies l[n.len() + 2 + j] == v[j] by {
        assert((n + " ("@ + v)[n.len() + 2 + j] == v[j]);
    }
}

/// The label determines the name and the variant, as long as names hold no
/// parenthesis.
proof fn lemma_label_injective(a: ServiceModel, b: ServiceModel)
    requires
        plain_name(a.name),
        plain_name(b.name),
        label_of(a) == label_of(b),
    ensures
        a.name == b.name,
        a.variant == b.variant,
{
    match (a.variant, b.variant) {
        (Option::None, Option::None) => {},
        (Option::None, Option::Some(v)) => {
            lemma_label_chars(b.name, v);
            assert(a.name[b.name.len() + 1int] == '(');
            assert(false);
        },
        (Option::Some(v), Option::None) => {
            lemma_label_chars(a.name, v);
            assert(b.name[a.name.len() + 1int] == '(');
            assert(false);
        },
        (Option::Some(v), Option::Some(w)) => {
            lemma_label_chars(a.name, v);
            lemma_label_chars(b.name, w);
            let la = label_of(a);
            let lb = label_of(b);
            if a.name.len() < b.name.len() {
                let i = a.name.len() + 1;
                assert(la[i as int] == '(');
                if i < b.name.len() {
                    assert(lb[i as int] == b.name[i as int]);
                    assert(false);
                } else {
                    assert(i == b.name.len());
                    assert(lb[i as int] == ' ');
                    assert(false);
                }
            } else if b.name.len() < a.name.len() {
                let i = b.name.len() + 1;
                assert(lb[i as int] == '(');
                if i < a.name.len() {
                    assert(la[i as int] == a.name[i as int]);
                    assert(false);
                } else {
                    assert(i == a.name.len());
                    assert(la[i as int] == ' ');
                    assert(false);
                }
            } else {
                assert(a.name =~= b.name);
                assert(v.len() == w.len());
                assert forall|j: int| 0 <= j < v.len() implies v[j] == w[j] by {
                    assert(la[a.name.len() + 2 + j] == v[j]);
                    assert(lb[b.name.len() + 2 + j] == w[j]);
                }
                assert(v =~= w);
            }
        },
    }
}

/// Display-label uniqueness: across any collection of services whose names
/// are parenthesis-free and whose `(name, variant)` pairs are pairwise
/// distinct, no two share a display label.
pub proof fn lemma_labels_unique(s: Seq<ServiceModel>)
    requires
        forall|i: int| 0 <= i < s.len() ==> plain_name(s[i].name),
        forall|i: int, j: int|
            0 <= i < j < s.len() ==> !(s[i].name == s[j].name && s[i].variant == s[j].variant),
    ensures
        forall|i: int, j: int| 0 <= i < j < s.len() ==> label_of(s[i]) != label_of(s[j]),
{
    assert forall|i: int, j: int|
        0 <= i < j < s.len() implies label_of(s[i]) != label_of(s[j]) by {
        if label_of(s[i]) == label_of(s[j]) {
            lemma_label_injective(s[i], s[j]);
        }
    }
}

/// Order on optional variants: an absent variant sorts before any present
/// one.
pub open spec fn variant_le(a: Option<Seq<char>>, b: Option<Seq<char>>) -> bool {
    match (a, b) {
        (Option::None, _) => true,
        (Option::Some(x), Option::None) => false,
        (Option::Some(x), Option::Some(y)) => lex_le(x, y),
    }
}

/// Order on services: by name, then by variant.
pub open spec fn service_le(a: ServiceModel, b: ServiceModel) -> bool {
    lex_lt(a.name, b.name) || (a.name == b.name && variant_le(a.variant, b.variant))
}

pub proof fn lemma_service_le_total(a: ServiceModel, b: ServiceModel)
    ensures
        service_le(a, b) || service_le(b, a),
{
    lemma_lex_connected(a.name, b.name);
    if a.name == b.name {
        match (a.variant, b.variant) {
            (Option::Some(x), Option::Some(y)) => {
                lemma_lex_connected(x, y);
            },
            _ => {},
        }
    }
}

pub proof fn lemma_service_le_trans(a: ServiceModel, b: ServiceModel, c: ServiceModel)
    requires
        service_le(a, b),
        service_le(b, c),
    ensures
        service_le(a, c),
{
    if lex_lt(a.name, b.name) && lex_lt(b.name, c.name) {
        lemma_lex_lt_trans(a.name, b.name, c.name);
    } else if a.name == b.name && b.name == c.name {
        match (a.variant, b.variant, c.variant) {
            (Option::Some(x), Option::Some(y), Option::Some(z)) => {
                lemma_lex_le_trans(x, y, z);
            },
            _ => {},
        }
    }
}

fn service_le_exec(a: &Service, b: &Service) -> (r: bool)
    ensures
        r == service_le(a@, b@),
{
    if str_lt(a.name.as_str(), b.name.as_str()) {
        true
    } else if str_eq(a.name.as_str(), b.name.as_str()) {
        match (&a.variant, &b.variant) {
            (Option::None, _) => true,
            (Option::Some(_), Option::None) => false,
            (Option::Some(x), Option::Some(y)) => {
                let yx = str_lt(y.as_str(), x.as_str());
                proof {
                    lemma_lex_connected(x@, y@);
                    if lex_lt(y@, x@) {
                        lemma_lex_lt_asym(y@, x@);
                    }
                }
                !yx
            },
        }
    } else {
        false
    }
}

/// Insert `x` into `s` in front of the first element that `x` is
/// less-or-equal to.
pub open spec fn insert_svc(s: Seq<ServiceModel>, x: ServiceModel) -> Seq<ServiceModel>
    decreases s.len(),
{
    if s.len() == 0 {
        seq![x]
    } else if service_le(x, s[0]) {
        seq![x] + s
    } else {
        seq![s[0]] + insert_svc(s.skip(1), x)
    }
}

/// Insertion sort of services under `service_le`.
pub open spec fn sort_svc(s: Seq<ServiceModel>) -> Seq<ServiceModel>
    decreases s.len(),
{
    if s.len() == 0 {
        Seq::empty()
    } else {
        insert_svc(sort_svc(s.drop_last()), s.last())
    }
}

/// Non-decreasing under `service_le`.
pub open spec fn services_sorted(s: Seq<ServiceModel>) -> bool {
    forall|i: int, j: int| 0 <= i < j < s.len() ==> service_le(s[i], s[j])
}

pub proof fn lemma_insert_svc_elems(s: Seq<ServiceModel>, x: ServiceModel)
    ensures
        insert_svc(s, x).len() == s.len() + 1,
        forall|k: int|
            0 <= k < insert_svc(s, x).len() ==> insert_svc(s, x)[k] == x || s.contains(
                insert_svc(s, x)[k],
            ),
    decreases s.len(),
{
    if s.len() == 0 {
    } else if service_le(x, s[0]) {
        assert forall|k: int|
            0 <= k < insert_svc(s, x).len() implies insert_svc(s, x)[k] == x || s.contains(
            insert_svc(s, x)[k],
        ) by {
            if k > 0 {
                assert(insert_svc(s, x)[k] == s[k - 1]);
            }
        }
    } else {
        lemma_insert_svc_elems(s.skip(1), x);
        let t = insert_svc(s.skip(1), x);
        assert forall|k: int|
            0 <= k < insert_svc(s, x).len() implies insert_svc(s, x)[k] == x || s.contains(
            insert_svc(s, x)[k],
        ) by {
            if k == 0 {
                assert(insert_svc(s, x)[0] == s[0]);
            } else {
                assert(insert_svc(s, x)[k] == t[k - 1]);
                if t[k - 1] != x {
                    let j = choose|j: int| 0 <= j < s.skip(1).len() && s.skip(1)[j] == t[k - 1];
                    assert(s[j + 1] == t[k - 1]);
                }
            }
        }
    }
}

pub proof fn lemma_insert_svc_sorted(s: Seq<ServiceModel>, x: ServiceModel)
    requires
        services_sorted(s),
    ensures
        services_sorted(insert_svc(s, x)),
    decreases s.len(),
{
    if s.len() == 0 {
    } else if service_le(x, s[0]) {
        let r = seq![x] + s;
        assert forall|i: int, j: int| 0 <= i < j < r.len() implies service_le(r[i], r[j]) by {
            if i == 0 {
                assert(r[j] == s[j - 1]);
                if j > 1 {
                    lemma_service_le_trans(x, s[0], s[j - 1]);
                }
            } else {
                assert(r[i] == s[i - 1] && r[j] == s[j - 1]);
            }
        }
    } else {
        lemma_service_le_total(x, s[0]);
        assert(service_le(s[0], x));
        assert(services_sorted(s.skip(1))) by {
            assert(forall|i: int| 0 <= i < s.skip(1).len() ==> s.skip(1)[i] == s[i + 1]);
        }
        lemma_insert_svc_sorted(s.skip(1), x);
        lemma_insert_svc_elems(s.skip(1), x);
        let t = insert_svc(s.skip(1), x);
        let r = seq![s[0]] + t;
        assert forall|i: int, j: int| 0 <= i < j < r.len() implies service_le(r[i], r[j]) by {
            if i == 0 {
                assert(r[j] == t[j - 1]);
                if t[j - 1] != x {
                    let m = choose|m: int| 0 <= m < s.skip(1).len() && s.skip(1)[m] == t[j - 1];
                    assert(s[m + 1] == t[j - 1]);
                    assert(service_le(s[0], s[m + 1]));
                }
            } else {
                assert(r[i] == t[i - 1] && r[j] == t[j - 1]);
            }
        }
    }
}

pub proof fn lemma_insert_svc_multiset(s: Seq<ServiceModel>, x: ServiceModel)
    ensures
        insert_svc(s, x).to_multiset() =~= s.to_multiset().insert(x),
    decreases s.len(),
{
    broadcast use vstd::seq_lib::group_to_multiset_ensures;

    if s.len() == 0 {
        assert(seq![x] =~= Seq::<ServiceModel>::empty().push(x));
    } else if service_le(x, s[0]) {
        vstd::seq_lib::lemma_multiset_commutative(seq![x], s);
        assert(seq![x] =~= Seq::<ServiceModel>::empty().push(x));
    } else {
        lemma_insert_svc_multiset(s.skip(1), x);
        vstd::seq_lib::lemma_multiset_commutative(seq![s[0]], insert_svc(s.skip(1), x));
        vstd::seq_lib::lemma_multiset_commutative(seq![s[0]], s.skip(1));
        assert(seq![s[0]] + s.skip(1) =~= s);
        assert(seq![s[0]] =~= Seq::<ServiceModel>::empty().push(s[0]));
    }
}

/// Sorting permutes the discovered services; none appears or disappears.
pub proof fn lemma_sort_svc_multiset(s: Seq<ServiceModel>)
    ensures
        sort_svc(s).to_multiset() =~= s.to_multiset(),
    decreases s.len(),
{
    broadcast use vstd::seq_lib::group_to_multiset_ensures;

    if s.len() == 0 {
    } else {
        lemma_sort_svc_multiset(s.drop_last());
        lemma_insert_svc_multiset(sort_svc(s.drop_last()), s.last());
        assert(s.drop_last().push(s.last()) =~= s);
    }
}

/// The discovery result order: `sort_svc` sorts by `(name, variant)`.
pub proof fn lemma_sort_svc_sorted(s: Seq<ServiceModel>)
    ensures
        services_sorted(sort_svc(s)),
    decreases s.len(),
{
    if s.len() == 0 {
    } else {
        lemma_sort_svc_sorted(s.drop_last());
        lemma_insert_svc_sorted(sort_svc(s.drop_last()), s.last());
    }
}

proof fn lemma_insert_svc_at(s: Seq<ServiceModel>, x: ServiceModel, i: int)
    requires
        0 <= i <= s.len(),
        forall|k: int| 0 <= k < i ==> !service_le(x, s[k]),
        i < s.len() ==> service_le(x, s[i]),
    ensures
        insert_svc(s, x) == s.insert(i, x),
    decreases s.len(),
{
    if s.len() == 0 {
        assert(insert_svc(s, x) =~= s.insert(0, x));
    } else if i == 0 {
        s.insert_ensures(0, x);
        assert(seq![x] + s =~= s.insert(0, x));
    } else {
        lemma_insert_svc_at(s.skip(1), x, i - 1);
        s.insert_ensures(i, x);
        s.skip(1).insert_ensures(i - 1, x);
        assert(seq![s[0]] + s.skip(1).insert(i - 1, x) =~= s.insert(i, x));
    }
}

fn insert_service(v: &mut Vec<Service>, x: Service)
    ensures
        models_of(final(v)@) == insert_svc(models_of(old(v)@), x@),
{
    let mut i: usize = 0;
    while i < v.len() && !service_le_exec(&x, &v[i])
        invariant
            i <= v@.len(),
            *v == *old(v),
            forall|k: int| 0 <= k < i ==> !service_le(x@, models_of(v@)[k]),
        decreases v@.len() - i,
    {
        i += 1;
    }
    proof {
        lemma_insert_svc_at(models_of(v@), x@, i as int);
    }
    let ghost pre = v@;
    v.insert(i, x);
    proof {
        pre.insert_ensures(i as int, x);
        models_of(pre).insert_ensures(i as int, x@);
        assert(models_of(pre.insert(i as int, x)) =~= models_of(pre).insert(i as int, x@));
    }
}

/// Sort services by `(name, variant)`, the order discovery results are
/// presented in.
pub fn sort_services(v: &Vec<Service>) -> (r: Vec<Service>)
    ensures
        models_of(r@) == sort_svc(models_of(v@)),
{
    let ghost all = models_of(v@);
    let mut r: Vec<Service> = Vec::new();
    let mut i: usize = 0;
    while i < v.len()
        invariant
            i <= all.len(),
            all == models_of(v@),
            v@.len() == all.len(),
            models_of(r@) == sort_svc(all.take(i as int)),
        decreases all.len() - i,
    {
        let x = v[i].duplicate();
        insert_service(&mut r, x);
        proof {
            assert(all.take(i + 1 as int).drop_last() =~= all.take(i as int));
            assert(all.take(i + 1 as int).last() == all[i as int]);
        }
        i += 1;
    }
    proof {
        assert(all.take(all.len() as int) =~= all);
    }
    r
}

} // verus!
