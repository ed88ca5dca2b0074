//! Dispatch bookkeeping: one job per selected service going out, exactly
//! one labelled outcome per service coming back.
//!
//! The caller runs each job in a worker of its own and reports one boolean
//! per job — true exactly when the external process ran and exited with
//! status zero. Workers are independent: a failed launch or a non-zero exit
//! is an ordinary `false`, never an abort of the others.

use vstd::prelude::*;

use crate::command::{action_args, base_args, build_compose_cmd, program_of, Action, ComposeMode};
use crate::service::{label_of, models_of, Service, ServiceModel};
use crate::strutil::{str_eq, views_of};

verus! {

/// One unit of work: a label to report under and the command to run.
pub struct DispatchJob {
    pub label: String,
    pub program: String,
    pub args: Vec<String>,
    pub dir: String,
}

/// The model of a `DispatchJob`.
pub struct JobModel {
    pub label: Seq<char>,
    pub program: Seq<char>,
    pub args: Seq<Seq<char>>,
    pub dir: Seq<char>,
}

impl View for DispatchJob {
    type V = JobModel;

    open spec fn view(&self) -> JobModel {
        JobModel {
            label: self.label@,
            program: self.program@,
            args: views_of(self.args@),
            dir: self.dir@,
        }
    }
}

/// The job dispatching `action` to one service.
pub open spec fn job_of(m: ServiceModel, action: Action, mode: ComposeMode) -> JobModel {
    JobModel {
        label: label_of(m),
        program: program_of(mode),
        args: base_args(m, mode) + crate::command::action_args_spec(action),
        dir: m.path,
    }
}

/// Plans one dispatch: exactly one job per selected service, in order,
/// each composed for the chosen mode and action.
pub fn plan_dispatch(services: &Vec<Service>, action: Action, mode: ComposeMode) -> (jobs: Vec<
    DispatchJob,
>)
    ensures
        jobs@.len() == services@.len(),
        forall|i: int|
            0 <= i < jobs@.len() ==> jobs@[i]@ == job_of(models_of(services@)[i], action, mode),
{
    let mut jobs: Vec<DispatchJob> = Vec::new();
    let mut i: usize = 0;
    while i < services.len()
        invariant
            i <= services@.len(),
            jobs@.len() == i,
            forall|k: int|
                0 <= k < i ==> jobs@[k]@ == job_of(models_of(services@)[k], action, mode),
        decreases services@.len() - i,
    {
        let s = &services[i];
        let inv = build_compose_cmd(s, mode);
        let mut args = inv.args;
        let mut extra = action_args(action);
        let ghost pre_args = views_of(args@);
        let ghost extra_vs = views_of(extra@);
        args.append(&mut extra);
        proof {
            assert(views_of(args@) =~= pre_args + extra_vs);
            assert(models_of(services@)[i as int] == services@[i as int]@);
        }
        let job = DispatchJob { label: s.label(), program: inv.program, args, dir: inv.dir };
        jobs.push(job);
        i += 1;
    }
    jobs
}

/// Pairs each service's label with its worker's outcome. Every service is
/// represented exactly once, whatever mixture of successes and failures
/// came back.
pub fn collect_results(services: &Vec<Service>, outcomes: &Vec<bool>) -> (r: Vec<(String, bool)>)
    requires
        services@.len() == outcomes@.len(),
    ensures
        r@.len() == services@.len(),
        forall|i: int| #![trigger r@[i]]
            0 <= i < r@.len() ==> r@[i].0@ == label_of(models_of(services@)[i]) && r@[i].1
                == outcomes@[i],
{
    let mut r: Vec<(String, bool)> = Vec::new();
    let mut i: usize = 0;
    while i < services.len()
        invariant
            i <= services@.len(),
            services@.len() == outcomes@.len(),
            r@.len() == i,
            forall|k: int| #![trigger r@[k]]
                0 <= k < i ==> r@[k].0@ == label_of(models_of(services@)[k]) && r@[k].1
                    == outcomes@[k],
        decreases services@.len() - i,
    {
        let label = services[i].label();
        proof {
            assert(models_of(services@)[i as int] == services@[i as int]@);
        }
        let ghost lv = label@;
        let ghost pre = r@;
        r.push((label, outcomes[i]));
        proof {
            assert(r@.last() == r@[i as int]);
            assert(r@[i as int].0@ == lv);
            assert(r@[i as int].1 == outcomes@[i as int]);
            assert forall|k: int| #![trigger r@[k]]
                0 <= k < i + 1 implies r@[k].0@ == label_of(models_of(services@)[k]) && r@[k].1
                == outcomes@[k] by {
                if k < i {
                    assert(r@[k] == pre[k]);
                }
            }
        }
        i += 1;
    }
    r
}

/// How many results report success.
pub open spec fn count_true(s: Seq<(String, bool)>) -> int
    decreases s.len(),
{
    if s.len() == 0 {
        0
    } else {
        count_true(s.drop_last()) + if s.last().1 {
            1int
        } else {
            0int
        }
    }
}

/// The `successes` part of the `successes/total` summary printed after a
/// dispatch.
pub fn count_successes(results: &Vec<(String, bool)>) -> (n: usize)
    ensures
        n == count_true(results@),
        n <= results@.len(),
{
    let mut n: usize = 0;
    let mut i: usize = 0;
    while i < results.len()
        invariant
            i <= results@.len(),
            n == count_true(results@.take(i as int)),
            n <= i,
        decreases results@.len() - i,
    {
        proof {
            assert(results@.take(i + 1 as int).drop_last() =~= results@.take(i as int));
            assert(results@.take(i + 1 as int).last() == results@[i as int]);
        }
        if results[i].1 {
            n += 1;
        }
        i += 1;
    }
    proof {
        assert(results@.take(results@.len() as int) =~= results@);
    }
    n
}

/// The status models of reported `(label, running)` pairs.
pub open spec fn status_models(s: Seq<(String, bool)>) -> Seq<(Seq<char>, bool)> {
    s.map_values(|p: (String, bool)| (p.0@, p.1))
}

/// A label reported as running.
pub open spec fn reported_running(st: Seq<(Seq<char>, bool)>, l: Seq<char>) -> bool {
    exists|j: int| 0 <= j < st.len() && st[j].0 == l && st[j].1
}

/// The services whose label was reported running, in order.
pub open spec fn running_of(ms: Seq<ServiceModel>, st: Seq<(Seq<char>, bool)>) -> Seq<
    ServiceModel,
>
    decreases ms.len(),
{
    if ms.len() == 0 {
        Seq::empty()
    } else {
        running_of(ms.drop_last(), st) + if reported_running(st, label_of(ms.last())) {
            seq![ms.last()]
        } else {
            Seq::empty()
        }
    }
}

fn label_reported_running(statuses: &Vec<(String, bool)>, label: &str) -> (r: bool)
    ensures
        r == reported_running(status_models(statuses@), label@),
{
    let mut j: usize = 0;
    while j < statuses.len()
        invariant
            j <= statuses@.len(),
            forall|k: int|
                0 <= k < j ==> !(status_models(statuses@)[k].0 == label@ && status_models(
                    statuses@,
                )[k].1),
        decreases statuses@.len() - j,
    {
        if statuses[j].1 && str_eq(statuses[j].0.as_str(), label) {
            proof {
                assert(status_models(statuses@)[j as int].0 == label@);
            }
            return true;
        }
        proof {
            let p = statuses@[j as int];
            assert(status_models(statuses@)[j as int] == (p.0@, p.1));
        }
        j += 1;
    }
    false
}

/// Keeps the services whose label a status query reported as running.
pub fn filter_running(services: &Vec<Service>, statuses: &Vec<(String, bool)>) -> (r: Vec<Service>)
    ensures
        models_of(r@) == running_of(models_of(services@), status_models(statuses@)),
{
    let ghost ms = models_of(services@);
    let ghost st = status_models(statuses@);
    let mut r: Vec<Service> = Vec::new();
    let mut i: usize = 0;
    while i < services.len()
        invariant
            i <= ms.len(),
            ms == models_of(services@),
            services@.len() == ms.len(),
            st == status_models(statuses@),
            models_of(r@) == running_of(ms.take(i as int), st),
        decreases ms.len() - i,
    {
        let ghost pre = r@;
        let label = services[i].label();
        proof {
            assert(ms[i as int] == services@[i as int]@);
        }
        if label_reported_running(statuses, label.as_str()) {
            r.push(services[i].duplicate());
            proof {
                assert(models_of(r@) =~= models_of(pre).push(ms[i as int]));
            }
        }
        proof {
            assert(ms.take(i + 1 as int).drop_last() =~= ms.take(i as int));
            assert(ms.take(i + 1 as int).last() == ms[i as int]);
            if reported_running(st, label_of(ms[i as int])) {
                assert(models_of(r@) =~= running_of(ms.take(i as int), st) + seq![ms[i as int]]);
            } else {
                assert(models_of(r@) =~= running_of(ms.take(i as int), st));
            }
        }
        i += 1;
    }
    proof {
        assert(ms.take(ms.len() as int) =~= ms);
    }
    r
}

/// How often a label occurs.
pub open spec fn count_of(ls: Seq<Seq<char>>, l: Seq<char>) -> int
    decreases ls.len(),
{
    if ls.len() == 0 {
        0
    } else {
        count_of(ls.drop_last(), l) + if ls.last() == l {
            1int
        } else {
            0int
        }
    }
}

proof fn lemma_count_zero(ls: Seq<Seq<char>>, l: Seq<char>)
    requires
        forall|k: int| 0 <= k < ls.len() ==> ls[k] != l,
    ensures
        count_of(ls, l) == 0,
    decreases ls.len(),
{
    if ls.len() > 0 {
        lemma_count_zero(ls.drop_last(), l);
    }
}

proof fn lemma_count_one(ls: Seq<Seq<char>>, i: int)
    requires
        0 <= i < ls.len(),
        forall|a: int, b: int| 0 <= a < b < ls.len() ==> ls[a] != ls[b],
    ensures
        count_of(ls, ls[i]) == 1,
    decreases ls.len(),
{
    if i == ls.len() - 1 {
        assert(forall|k: int| 0 <= k < ls.drop_last().len() ==> ls.drop_last()[k] != ls[i]);
        lemma_count_zero(ls.drop_last(), ls[i]);
    } else {
        lemma_count_one(ls.drop_last(), i);
        assert(ls.drop_last()[i] == ls[i]);
        assert(ls.last() != ls[i]);
    }
}

/// The labels of a result list.
pub open spec fn labels_of_results(rs: Seq<(Seq<char>, bool)>) -> Seq<Seq<char>> {
    rs.map_values(|p: (Seq<char>, bool)| p.0)
}

/// The labels of a service list.
pub open spec fn labels_of_services(ms: Seq<ServiceModel>) -> Seq<Seq<char>> {
    ms.map_values(|m: ServiceModel| label_of(m))
}

/// Dispatch completeness: a result list that pairs the services one-to-one
/// carries the same labels in the same order, and — when the services'
/// labels are pairwise distinct — each label appears in it exactly once,
/// whatever the outcomes were.
pub proof fn lemma_dispatch_complete(ms: Seq<ServiceModel>, rs: Seq<(Seq<char>, bool)>)
    requires
        rs.len() == ms.len(),
        forall|i: int| 0 <= i < rs.len() ==> rs[i].0 == label_of(ms[i]),
    ensures
        labels_of_results(rs) == labels_of_services(ms),
        (forall|a: int, b: int|
            0 <= a < b < ms.len() ==> label_of(ms[a]) != label_of(ms[b])) ==> forall|i: int|
            0 <= i < ms.len() ==> count_of(labels_of_results(rs), label_of(ms[i])) == 1,
{
    assert(labels_of_results(rs) =~= labels_of_services(ms));
    if forall|a: int, b: int| 0 <= a < b < ms.len() ==> label_of(ms[a]) != label_of(ms[b]) {
        assert forall|i: int|
            0 <= i < ms.len() implies count_of(labels_of_results(rs), label_of(ms[i])) == 1 by {
            let ls = labels_of_results(rs);
            assert(forall|a: int, b: int| 0 <= a < b < ls.len() ==> ls[a] != ls[b]);
            assert(ls[i] == label_of(ms[i]));
            lemma_count_one(ls, i);
        }
    }
}

} // verus!
