//! The discovery walk as a step machine.
//!
//! The walker owns every decision of the directory scan: which directory to
//! read next, which subdirectories are eligible, which become service units
//! and which are descended into. The caller performs the actual directory
//! reads and feeds each listing back. A visited set keyed by canonicalized
//! paths guarantees that no directory is ever handed out twice, so a walk
//! over a tree with symlink cycles terminates; a depth bound, when set,
//! keeps every produced unit within it, while the root is always
//! considered.

use vstd::prelude::*;
use vstd::string::StrSliceExecFns;

use crate::config::Config;
use crate::grouping::{group_compose_files, group_spec};
use crate::matching::{descriptors_of, get_compose_files};
use crate::service::{models_of, sort_services, sort_svc, Service, ServiceModel};
use crate::strutil::{clone_strings, contains_string, sort_lex, str_eq, views_of};

verus! {

/// What the caller reports about one subdirectory of a listed directory.
pub struct SubdirEntry {
    /// The directory's own name.
    pub name: String,
    /// The path the external command would run from.
    pub path: String,
    /// The canonicalized path, the key of the visited set.
    pub canon: String,
    /// Names of the plain files directly inside it.
    pub file_names: Vec<String>,
}

/// The model of a `SubdirEntry`.
pub struct SubdirModel {
    pub name: Seq<char>,
    pub path: Seq<char>,
    pub canon: Seq<char>,
    pub file_names: Seq<Seq<char>>,
}

impl View for SubdirEntry {
    type V = SubdirModel;

    open spec fn view(&self) -> SubdirModel {
        SubdirModel {
            name: self.name@,
            path: self.path@,
            canon: self.canon@,
            file_names: views_of(self.file_names@),
        }
    }
}

pub open spec fn subdir_models(s: Seq<SubdirEntry>) -> Seq<SubdirModel> {
    s.map_values(|d: SubdirEntry| d@)
}

/// A directory waiting to be listed.
pub struct PendingDir {
    pub canon: String,
    pub depth: usize,
}

/// The model of a `PendingDir`.
pub struct PendingModel {
    pub canon: Seq<char>,
    pub depth: int,
}

impl View for PendingDir {
    type V = PendingModel;

    open spec fn view(&self) -> PendingModel {
        PendingModel { canon: self.canon@, depth: self.depth as int }
    }
}

pub open spec fn pending_models(s: Seq<PendingDir>) -> Seq<PendingModel> {
    s.map_values(|p: PendingDir| p@)
}

/// `d <= m`, with `None` as "no bound".
pub open spec fn within_depth(d: int, m: Option<usize>) -> bool {
    match m {
        Option::None => true,
        Option::Some(md) => d <= md,
    }
}

/// `d < m`, with `None` as "no bound".
pub open spec fn below_depth(d: int, m: Option<usize>) -> bool {
    match m {
        Option::None => true,
        Option::Some(md) => d < md,
    }
}

/// The next depth counter; it saturates rather than wraps, which no walk
/// over real paths can ever reach.
pub open spec fn bump(d: int) -> int {
    if d < usize::MAX {
        d + 1
    } else {
        d
    }
}

/// A directory name the walk will not enter: hidden names, the built-in
/// exclusion list, and the user-configured exclusions.
pub open spec fn name_eligible(name: Seq<char>, excluded: Seq<Seq<char>>) -> bool {
    &&& !(name.len() > 0 && name[0] == '.')
    &&& name != "target"@
    &&& name != "node_modules"@
    &&& name != "vendor"@
    &&& !excluded.contains(name)
}

/// The units one subdirectory contributes: an eligible directory holding at
/// least one descriptor file becomes a leaf and is grouped.
pub open spec fn subdir_units(d: SubdirModel, excluded: Seq<Seq<char>>) -> Seq<ServiceModel> {
    if name_eligible(d.name, excluded) && descriptors_of(d.file_names).len() > 0 {
        group_spec(sort_lex(descriptors_of(d.file_names)), d.name, d.path)
    } else {
        Seq::empty()
    }
}

/// All units of one listing, in listing order.
pub open spec fn listing_units(ds: Seq<SubdirModel>, excluded: Seq<Seq<char>>) -> Seq<
    ServiceModel,
>
    decreases ds.len(),
{
    if ds.len() == 0 {
        Seq::empty()
    } else {
        listing_units(ds.drop_last(), excluded) + subdir_units(ds.last(), excluded)
    }
}

/// The tags extracted from one subdirectory's emitted files are pairwise
/// distinct.
pub open spec fn subdir_tags_distinct(d: SubdirModel) -> bool {
    forall|a: int, b: int|
        0 <= a < b < crate::grouping::tag_sources(
            sort_lex(descriptors_of(d.file_names)),
        ).len() ==> crate::matching::variant_of(
            crate::grouping::tag_sources(sort_lex(descriptors_of(d.file_names)))[a],
        ) != crate::matching::variant_of(
            crate::grouping::tag_sources(sort_lex(descriptors_of(d.file_names)))[b],
        )
}

proof fn lemma_listing_units_named(ds: Seq<SubdirModel>, excl: Seq<Seq<char>>)
    ensures
        forall|k: int| #![trigger listing_units(ds, excl)[k]]
            0 <= k < listing_units(ds, excl).len() ==> exists|j: int|
                0 <= j < ds.len() && listing_units(ds, excl)[k].name == ds[j].name,
    decreases ds.len(),
{
    if ds.len() > 0 {
        lemma_listing_units_named(ds.drop_last(), excl);
        let d = ds.last();
        crate::grouping::lemma_group_units_named(
            sort_lex(descriptors_of(d.file_names)),
            d.name,
            d.path,
        );
        let a = listing_units(ds.drop_last(), excl);
        let b = subdir_units(d, excl);
        assert forall|k: int| #![trigger listing_units(ds, excl)[k]]
            0 <= k < listing_units(ds, excl).len() implies exists|j: int|
            0 <= j < ds.len() && listing_units(ds, excl)[k].name == ds[j].name by {
            if k < a.len() {
                assert(listing_units(ds, excl)[k] == a[k]);
                let j = choose|j: int|
                    0 <= j < ds.drop_last().len() && a[k].name == ds.drop_last()[j].name;
                assert(ds.drop_last()[j] == ds[j]);
                assert(listing_units(ds, excl)[k].name == ds[j].name);
            } else {
                assert(listing_units(ds, excl)[k] == b[k - a.len()]);
                assert(b[k - a.len()].name == d.name);
                assert(listing_units(ds, excl)[k].name == ds[ds.len() - 1].name);
            }
        }
    }
}

/// Within one listing — where the file system already guarantees the
/// subdirectories' names to be pairwise distinct — no two produced units
/// share a `(name, variant)` address, as long as each directory's
/// extracted tags are distinct. Together with the label lemma of the
/// service module this makes every display label of one listing unique.
pub proof fn lemma_listing_units_distinct(ds: Seq<SubdirModel>, excl: Seq<Seq<char>>)
    requires
        forall|a: int, b: int| 0 <= a < b < ds.len() ==> ds[a].name != ds[b].name,
        forall|j: int| 0 <= j < ds.len() ==> subdir_tags_distinct(ds[j]),
    ensures
        forall|i: int, j: int|
            #![trigger listing_units(ds, excl)[i], listing_units(ds, excl)[j]]
            0 <= i < j < listing_units(ds, excl).len() ==> !(listing_units(ds, excl)[i].name
                == listing_units(ds, excl)[j].name && listing_units(ds, excl)[i].variant
                == listing_units(ds, excl)[j].variant),
    decreases ds.len(),
{
    if ds.len() > 0 {
        let prefix = ds.drop_last();
        assert(forall|a: int, b: int|
            0 <= a < b < prefix.len() ==> prefix[a].name != prefix[b].name) by {
            assert(forall|a: int| 0 <= a < prefix.len() ==> prefix[a] == ds[a]);
        }
        assert(forall|j: int| 0 <= j < prefix.len() ==> subdir_tags_distinct(prefix[j])) by {
            assert(forall|j: int| 0 <= j < prefix.len() ==> prefix[j] == ds[j]);
        }
        lemma_listing_units_distinct(prefix, excl);
        lemma_listing_units_named(prefix, excl);
        let d = ds.last();
        let files = sort_lex(descriptors_of(d.file_names));
        crate::grouping::lemma_group_units_distinct(files, d.name, d.path);
        let a = listing_units(prefix, excl);
        let b = subdir_units(d, excl);
        let lu = listing_units(ds, excl);
        assert(lu == a + b);
        assert forall|i: int, j: int|
            #![trigger lu[i], lu[j]]
            0 <= i < j < lu.len() implies !(lu[i].name == lu[j].name && lu[i].variant
            == lu[j].variant) by {
            if j < a.len() {
                assert(lu[i] == a[i] && lu[j] == a[j]);
            } else if i >= a.len() {
                assert(lu[i] == b[i - a.len()] && lu[j] == b[j - a.len()]);
                assert(b == crate::grouping::group_spec(files, d.name, d.path));
            } else {
                assert(lu[i] == a[i] && lu[j] == b[j - a.len()]);
                let m = choose|m: int| 0 <= m < prefix.len() && a[i].name == prefix[m].name;
                assert(prefix[m] == ds[m]);
                assert(lu[j].name == d.name);
                assert(ds[m].name != ds[ds.len() - 1].name);
            }
        }
    }
}

/// An eligible subdirectory with no descriptor files is descended into.
pub open spec fn keeps(d: SubdirModel, excluded: Seq<Seq<char>>) -> bool {
    name_eligible(d.name, excluded) && descriptors_of(d.file_names).len() == 0
}

pub open spec fn kept_entry(d: SubdirModel, excluded: Seq<Seq<char>>, nd: int) -> Seq<
    PendingModel,
> {
    if keeps(d, excluded) {
        seq![PendingModel { canon: d.canon, depth: nd }]
    } else {
        Seq::empty()
    }
}

/// The stack entries one listing adds: the subdirectories to descend into,
/// last first, so the stack pops them in listing order.
pub open spec fn pending_added(ds: Seq<SubdirModel>, excluded: Seq<Seq<char>>, nd: int) -> Seq<
    PendingModel,
>
    decreases ds.len(),
{
    if ds.len() == 0 {
        Seq::empty()
    } else {
        kept_entry(ds.last(), excluded, nd) + pending_added(ds.drop_last(), excluded, nd)
    }
}

proof fn lemma_pending_added_cons(x: SubdirModel, s: Seq<SubdirModel>, excluded: Seq<Seq<char>>, nd: int)
    ensures
        pending_added(seq![x] + s, excluded, nd) == pending_added(s, excluded, nd) + kept_entry(
            x,
            excluded,
            nd,
        ),
    decreases s.len(),
{
    if s.len() == 0 {
        let t = seq![x] + s;
        assert(t.last() == x);
        assert(t.drop_last() =~= Seq::<SubdirModel>::empty());
        assert(pending_added(t, excluded, nd) == kept_entry(x, excluded, nd) + pending_added(
            t.drop_last(),
            excluded,
            nd,
        ));
        assert(pending_added(t.drop_last(), excluded, nd) == Seq::<PendingModel>::empty());
        assert(kept_entry(x, excluded, nd) + Seq::<PendingModel>::empty() =~= Seq::<
            PendingModel,
        >::empty() + kept_entry(x, excluded, nd));
    } else {
        assert((seq![x] + s).last() == s.last());
        assert((seq![x] + s).drop_last() =~= seq![x] + s.drop_last());
        lemma_pending_added_cons(x, s.drop_last(), excluded, nd);
        assert(pending_added(seq![x] + s, excluded, nd) =~= pending_added(s, excluded, nd)
            + kept_entry(x, excluded, nd));
    }
}

/// The stack entry at `k` is settled — rightly never handed out: its path
/// was already taken up, it sits at or past the depth bound, or another
/// entry for the same path sits at or past the bound.
pub open spec fn entry_settled(
    p: Seq<PendingModel>,
    k: int,
    visited0: Seq<Seq<char>>,
    m: Option<usize>,
) -> bool {
    ||| visited0.contains(p[k].canon)
    ||| !below_depth(p[k].depth, m)
    ||| exists|k2: int|
        0 <= k2 < p.len() && k2 != k && p[k2].canon == p[k].canon && !below_depth(p[k2].depth, m)
}

/// The units of the root directory itself, considered before any descent
/// and regardless of the depth bound.
pub open spec fn root_units(files: Seq<Seq<char>>, path: Seq<char>) -> Seq<ServiceModel> {
    if sort_lex(descriptors_of(files)).len() > 0 {
        group_spec(sort_lex(descriptors_of(files)), "root"@, path)
    } else {
        Seq::empty()
    }
}

/// The discovery walk in progress.
pub struct Walker {
    /// Directories not yet listed, a stack.
    pub pending: Vec<PendingDir>,
    /// Canonical paths of every directory already taken up.
    pub visited: Vec<String>,
    /// Units produced so far, in encounter order.
    pub services: Vec<Service>,
    /// User-configured exclusions, fixed at the start of the walk.
    pub excluded: Vec<String>,
    /// Depth bound, fixed at the start of the walk.
    pub max_depth: Option<usize>,
    /// Depth of the directory currently handed out.
    pub current_depth: usize,
    /// A directory has been handed out and its listing is awaited.
    pub listing_open: bool,
    /// History of every canonical path handed out.
    pub handed: Ghost<Seq<Seq<char>>>,
    /// The depth at which each unit in `services` was produced.
    pub svc_depths: Ghost<Seq<int>>,
}

impl Walker {
    /// The walk's invariant.
    pub open spec fn wf(&self) -> bool {
        &&& self.handed@.no_duplicates()
        &&& forall|i: int|
            0 <= i < self.handed@.len() ==> views_of(self.visited@).contains(self.handed@[i])
        &&& forall|i: int|
            0 <= i < self.pending@.len() ==> within_depth(
                self.pending@[i].depth as int,
                self.max_depth,
            )
        &&& self.listing_open ==> below_depth(self.current_depth as int, self.max_depth)
        &&& self.svc_depths@.len() == self.services@.len()
        &&& forall|i: int|
            0 <= i < self.svc_depths@.len() ==> within_depth(self.svc_depths@[i], self.max_depth)
    }

    /// Starts a walk. The root directory's own files are considered at once,
    /// whatever the depth bound; the root is queued for descent at depth
    /// zero.
    pub fn new(root_path: &str, root_canon: &str, root_files: &Vec<String>, config: &Config) -> (w:
        Walker)
        ensures
            w.wf(),
            models_of(w.services@) == root_units(views_of(root_files@), root_path@),
            w.svc_depths@ == Seq::new(w.services@.len() as nat, |i: int| 0int),
            pending_models(w.pending@) == seq![
                PendingModel { canon: root_canon@, depth: 0 },
            ],
            w.visited@.len() == 0,
            w.handed@.len() == 0,
            !w.listing_open,
            views_of(w.excluded@) == views_of(config.excluded_dirs@),
            w.max_depth == config.max_depth,
    {
        let descriptors = get_compose_files(root_files);
        let services: Vec<Service> = if descriptors.len() > 0 {
            group_compose_files(&descriptors, "root", root_path)
        } else {
            Vec::new()
        };
        proof {
            if descriptors@.len() > 0 {
                assert(views_of(descriptors@).len() == descriptors@.len());
            } else {
                assert(views_of(descriptors@).len() == 0);
            }
        }
        let mut pending: Vec<PendingDir> = Vec::new();
        pending.push(PendingDir { canon: root_canon.to_owned(), depth: 0 });
        let w = Walker {
            pending,
            visited: Vec::new(),
            services,
            excluded: clone_strings(&config.excluded_dirs),
            max_depth: config.max_depth,
            current_depth: 0,
            listing_open: false,
            handed: Ghost(Seq::empty()),
            svc_depths: Ghost(Seq::new(services@.len() as nat, |i: int| 0int)),
        };
        proof {
            assert(pending_models(w.pending@) =~= seq![
                PendingModel { canon: root_canon@, depth: 0 },
            ]);
            assert(views_of(w.visited@) =~= Seq::<Seq<char>>::empty());
        }
        w
    }

    /// Hands out the next directory to list, or `None` when the walk is
    /// done. A directory whose canonical path was already taken up is
    /// skipped silently, so no directory is ever listed twice; one at the
    /// depth bound is marked visited but not descended into.
    pub fn next_dir(&mut self) -> (r: Option<String>)
        requires
            old(self).wf(),
            !old(self).listing_open,
        ensures
            final(self).wf(),
            final(self).services == old(self).services,
            final(self).svc_depths == old(self).svc_depths,
            final(self).excluded == old(self).excluded,
            final(self).max_depth == old(self).max_depth,
            forall|c: Seq<char>|
                views_of(old(self).visited@).contains(c) ==> views_of(
                    final(self).visited@,
                ).contains(c),
            match r {
                Option::None => {
                    &&& final(self).pending@.len() == 0
                    &&& final(self).handed == old(self).handed
                    &&& !final(self).listing_open
                    &&& forall|k: int|
                        0 <= k < old(self).pending@.len() ==> entry_settled(
                            pending_models(old(self).pending@),
                            k,
                            views_of(old(self).visited@),
                            old(self).max_depth,
                        )
                },
                Option::Some(p) => {
                    &&& final(self).listing_open
                    &&& !views_of(old(self).visited@).contains(p@)
                    &&& views_of(final(self).visited@).contains(p@)
                    &&& !old(self).handed@.contains(p@)
                    &&& final(self).handed@ == old(self).handed@.push(p@)
                    &&& below_depth(final(self).current_depth as int, final(self).max_depth)
                    &&& exists|k: int|
                        0 <= k < old(self).pending@.len() && pending_models(
                            old(self).pending@,
                        )[k].canon == p@ && pending_models(old(self).pending@)[k].depth
                            == final(self).current_depth as int
                },
            },
    {
        let ghost p0 = pending_models(old(self).pending@);
        let ghost v0 = views_of(old(self).visited@);
        let ghost mut marked: Seq<Seq<char>> = Seq::empty();
        proof {
            assert(pending_models(self.pending@) =~= p0.take(self.pending@.len() as int));
            assert(views_of(self.visited@) =~= v0 + marked);
        }
        loop
            invariant_except_break
                self.services == old(self).services,
                self.svc_depths == old(self).svc_depths,
                self.excluded == old(self).excluded,
                self.max_depth == old(self).max_depth,
                self.handed == old(self).handed,
                !self.listing_open,
                self.handed@.no_duplicates(),
                forall|i: int|
                    0 <= i < self.handed@.len() ==> views_of(self.visited@).contains(
                        self.handed@[i],
                    ),
                forall|i: int|
                    0 <= i < self.pending@.len() ==> within_depth(
                        self.pending@[i].depth as int,
                        self.max_depth,
                    ),
                self.svc_depths@.len() == self.services@.len(),
                forall|i: int|
                    0 <= i < self.svc_depths@.len() ==> within_depth(
                        self.svc_depths@[i],
                        self.max_depth,
                    ),
                p0 == pending_models(old(self).pending@),
                v0 == views_of(old(self).visited@),
                self.pending@.len() <= p0.len(),
                pending_models(self.pending@) == p0.take(self.pending@.len() as int),
                views_of(self.visited@) == v0 + marked,
                forall|c: int| #![trigger marked[c]]
                    0 <= c < marked.len() ==> exists|k2: int|
                        self.pending@.len() <= k2 < p0.len() && p0[k2].canon == marked[c]
                            && !below_depth(p0[k2].depth, self.max_depth),
                forall|k: int|
                    self.pending@.len() <= k < p0.len() ==> entry_settled(
                        p0,
                        k,
                        v0,
                        self.max_depth,
                    ),
            ensures
                self.services == old(self).services,
                self.svc_depths == old(self).svc_depths,
                self.excluded == old(self).excluded,
                self.max_depth == old(self).max_depth,
                self.handed == old(self).handed,
                !self.listing_open,
                self.wf(),
                self.pending@.len() == 0,
                views_of(self.visited@) == v0 + marked,
                forall|k: int| 0 <= k < p0.len() ==> entry_settled(p0, k, v0, self.max_depth),
            decreases self.pending@.len(),
        {
            let ghost pre_pending = self.pending@;
            let next = self.pending.pop();
            match next {
                Option::None => {
                    break ;
                },
                Option::Some(pd) => {
                    let ghost me = (pre_pending.len() - 1) as int;
                    proof {
                        assert(pd@ == pending_models(pre_pending)[me]);
                        assert(pending_models(pre_pending)[me] == p0.take(
                            pre_pending.len() as int,
                        )[me]);
                        assert(pd@ == p0[me]);
                        assert(pending_models(self.pending@) =~= p0.take(
                            self.pending@.len() as int,
                        ));
                    }
                    if !contains_string(&self.visited, pd.canon.as_str()) {
                        let ghost pre_visited = self.visited@;
                        self.visited.push(pd.canon.clone());
                        proof {
                            assert(views_of(self.visited@) =~= views_of(pre_visited).push(
                                pd.canon@,
                            ));
                            assert forall|c: Seq<char>|
                                views_of(pre_visited).contains(c) implies views_of(
                                self.visited@,
                            ).contains(c) by {
                                let j = choose|j: int|
                                    0 <= j < views_of(pre_visited).len() && views_of(
                                        pre_visited,
                                    )[j] == c;
                                assert(views_of(self.visited@)[j] == c);
                            }
                            assert(views_of(self.visited@).contains(pd.canon@)) by {
                                assert(views_of(self.visited@)[views_of(self.visited@).len() - 1]
                                    == pd.canon@);
                            }
                            assert(!v0.contains(pd.canon@)) by {
                                if v0.contains(pd.canon@) {
                                    let j = choose|j: int|
                                        0 <= j < v0.len() && v0[j] == pd.canon@;
                                    assert(views_of(pre_visited)[j] == pd.canon@);
                                }
                            }
                        }
                        let proceed = match self.max_depth {
                            Option::None => true,
                            Option::Some(m) => pd.depth < m,
                        };
                        if proceed {
                            self.current_depth = pd.depth;
                            self.listing_open = true;
                            proof {
                                assert(!views_of(pre_visited).contains(pd.canon@));
                                assert(!self.handed@.contains(pd.canon@));
                                assert(p0[me].canon == pd.canon@ && p0[me].depth
                                    == self.current_depth as int);
                                assert forall|c: Seq<char>|
                                    v0.contains(c) implies views_of(self.visited@).contains(
                                    c,
                                ) by {
                                    let j = choose|j: int| 0 <= j < v0.len() && v0[j] == c;
                                    assert(views_of(pre_visited)[j] == c);
                                    assert(views_of(pre_visited).contains(c));
                                }
                            }
                            self.handed = Ghost(self.handed@.push(pd.canon@));
                            return Option::Some(pd.canon);
                        } else {
                            proof {
                                assert(!below_depth(p0[me].depth, self.max_depth));
                                marked = marked.push(pd.canon@);
                                assert(views_of(self.visited@) =~= v0 + marked);
                                assert forall|c: int| #![trigger marked[c]]
                                    0 <= c < marked.len() implies exists|k2: int|
                                    self.pending@.len() <= k2 < p0.len() && p0[k2].canon
                                        == marked[c] && !below_depth(
                                        p0[k2].depth,
                                        self.max_depth,
                                    ) by {
                                    if c == marked.len() - 1 {
                                        assert(p0[me].canon == marked[c] && !below_depth(
                                            p0[me].depth,
                                            self.max_depth,
                                        ));
                                    }
                                }
                            }
                        }
                    } else {
                        proof {
                            // the path was already taken up: either before this
                            // call, or by a deeper duplicate popped earlier
                            let cs = views_of(self.visited@);
                            let j = choose|j: int| 0 <= j < cs.len() && cs[j] == pd.canon@;
                            if j < v0.len() {
                                assert(v0[j] == pd.canon@);
                                assert(v0.contains(pd.canon@));
                            } else {
                                assert(marked[j - v0.len()] == pd.canon@);
                            }
                            assert(entry_settled(p0, me, v0, self.max_depth));
                        }
                    }
                },
            }
        }
        proof {
            assert(p0.take(0) =~= Seq::<PendingModel>::empty());
            assert forall|c: Seq<char>|
                v0.contains(c) implies views_of(self.visited@).contains(c) by {
                let j = choose|j: int| 0 <= j < v0.len() && v0[j] == c;
                assert(views_of(self.visited@)[j] == c);
            }
        }
        Option::None
    }

    /// Takes the listing of the directory handed out last. Each eligible
    /// subdirectory either becomes one or more units (when it holds
    /// descriptor files) or is queued for descent one level deeper.
    pub fn record_listing(&mut self, subdirs: &Vec<SubdirEntry>)
        requires
            old(self).wf(),
            old(self).listing_open,
        ensures
            final(self).wf(),
            !final(self).listing_open,
            final(self).visited == old(self).visited,
            final(self).handed == old(self).handed,
            final(self).excluded == old(self).excluded,
            final(self).max_depth == old(self).max_depth,
            models_of(final(self).services@) == models_of(old(self).services@) + listing_units(
                subdir_models(subdirs@),
                views_of(old(self).excluded@),
            ),
            final(self).svc_depths@ == old(self).svc_depths@ + Seq::new(
                listing_units(subdir_models(subdirs@), views_of(old(self).excluded@)).len(),
                |k: int| bump(old(self).current_depth as int),
            ),
            pending_models(final(self).pending@) == pending_models(old(self).pending@)
                + pending_added(
                subdir_models(subdirs@),
                views_of(old(self).excluded@),
                bump(old(self).current_depth as int),
            ),
    {
        let ghost excl = views_of(self.excluded@);
        let ghost dm = subdir_models(subdirs@);
        let ghost pre_services = self.services@;
        let ghost pre_depths = self.svc_depths@;
        let ghost pre_pending = self.pending@;
        let nd: usize = if self.current_depth < usize::MAX {
            self.current_depth + 1
        } else {
            self.current_depth
        };
        let ghost gnd = bump(old(self).current_depth as int);
        let mut keep: Vec<bool> = Vec::new();

        let mut i: usize = 0;
        while i < subdirs.len()
            invariant
                i <= dm.len(),
                dm == subdir_models(subdirs@),
                subdirs@.len() == dm.len(),
                excl == views_of(self.excluded@),
                gnd == bump(self.current_depth as int),
                nd as int == gnd,
                self.listing_open,
                self.visited == old(self).visited,
                self.handed == old(self).handed,
                self.excluded == old(self).excluded,
                self.max_depth == old(self).max_depth,
                self.pending == old(self).pending,
                self.current_depth == old(self).current_depth,
                below_depth(self.current_depth as int, self.max_depth),
                self.handed@.no_duplicates(),
                forall|k: int|
                    0 <= k < self.handed@.len() ==> views_of(self.visited@).contains(
                        self.handed@[k],
                    ),
                forall|k: int|
                    0 <= k < self.pending@.len() ==> within_depth(
                        self.pending@[k].depth as int,
                        self.max_depth,
                    ),
                keep@.len() == i,
                forall|k: int| 0 <= k < i ==> keep@[k] == keeps(dm[k], excl),
                models_of(self.services@) == models_of(pre_services) + listing_units(
                    dm.take(i as int),
                    excl,
                ),
                self.svc_depths@ == pre_depths + Seq::new(
                    listing_units(dm.take(i as int), excl).len(),
                    |k: int| gnd,
                ),
                pre_depths.len() == pre_services.len(),
                forall|k: int|
                    0 <= k < self.svc_depths@.len() ==> within_depth(
                        self.svc_depths@[k],
                        self.max_depth,
                    ),
                self.svc_depths@.len() == self.services@.len(),
            decreases dm.len() - i,
        {
            let d = &subdirs[i];
            proof {
                assert(dm[i as int] == subdirs@[i as int]@);
            }
            let eligible = eligible_name(d.name.as_str(), &self.excluded);
            let files = get_compose_files(&d.file_names);
            proof {
                assert(views_of(files@) == sort_lex(descriptors_of(dm[i as int].file_names)));
                crate::strutil::lemma_sort_lex_len(descriptors_of(dm[i as int].file_names));
            }
            if eligible && files.len() > 0 {
                let mut units = group_compose_files(
                    &files,
                    d.name.as_str(),
                    d.path.as_str(),
                );
                let ghost um = models_of(units@);
                proof {
                    assert(um == subdir_units(dm[i as int], excl));
                }
                let ghost pre = self.services@;
                self.services.append(&mut units);
                proof {
                    assert(models_of(self.services@) =~= models_of(pre) + um);
                }
                self.svc_depths = Ghost(
                    self.svc_depths@ + Seq::new(um.len(), |k: int| gnd),
                );
                keep.push(false);
                proof {
                    assert(!keeps(dm[i as int], excl));
                }
            } else {
                keep.push(eligible && files.len() == 0);
                proof {
                    assert(subdir_units(dm[i as int], excl) =~= Seq::<ServiceModel>::empty());
                    assert(models_of(self.services@) =~= models_of(pre_services)
                        + listing_units(dm.take(i as int), excl) + Seq::<ServiceModel>::empty());
                    assert((eligible && files@.len() == 0) == keeps(dm[i as int], excl));
                }
            }
            proof {
                assert(dm.take(i + 1 as int).drop_last() =~= dm.take(i as int));
                assert(dm.take(i + 1 as int).last() == dm[i as int]);
                assert(listing_units(dm.take(i + 1 as int), excl) == listing_units(
                    dm.take(i as int),
                    excl,
                ) + subdir_units(dm[i as int], excl));
                assert(models_of(self.services@) =~= models_of(pre_services) + listing_units(
                    dm.take(i + 1 as int),
                    excl,
                ));
                assert(self.svc_depths@ =~= pre_depths + Seq::new(
                    listing_units(dm.take(i + 1 as int), excl).len(),
                    |k: int| gnd,
                ));
                assert forall|k: int|
                    0 <= k < self.svc_depths@.len() implies within_depth(
                    self.svc_depths@[k],
                    self.max_depth,
                ) by {
                    if k >= pre_depths.len() {
                        assert(self.svc_depths@[k] == gnd);
                    }
                }
            }
            i += 1;
        }
        proof {
            assert(dm.take(dm.len() as int) =~= dm);
            assert(dm.skip(dm.len() as int) =~= Seq::<SubdirModel>::empty());
        }

        let ghost after_units_services = self.services@;
        let ghost after_units_depths = self.svc_depths@;
        let mut j: usize = subdirs.len();
        while j > 0
            invariant
                j <= dm.len(),
                dm == subdir_models(subdirs@),
                subdirs@.len() == dm.len(),
                excl == views_of(self.excluded@),
                gnd == bump(self.current_depth as int),
                nd as int == gnd,
                self.listing_open,
                self.visited == old(self).visited,
                self.handed == old(self).handed,
                self.excluded == old(self).excluded,
                self.max_depth == old(self).max_depth,
                self.current_depth == old(self).current_depth,
                below_depth(self.current_depth as int, self.max_depth),
                self.services@ == after_units_services,
                self.svc_depths@ == after_units_depths,
                self.handed@.no_duplicates(),
                forall|k: int|
                    0 <= k < self.handed@.len() ==> views_of(self.visited@).contains(
                        self.handed@[k],
                    ),
                forall|k: int|
                    0 <= k < self.pending@.len() ==> within_depth(
                        self.pending@[k].depth as int,
                        self.max_depth,
                    ),
                self.svc_depths@.len() == self.services@.len(),
                forall|k: int|
                    0 <= k < self.svc_depths@.len() ==> within_depth(
                        self.svc_depths@[k],
                        self.max_depth,
                    ),
                keep@.len() == dm.len(),
                forall|k: int| 0 <= k < dm.len() ==> keep@[k] == keeps(dm[k], excl),
                pending_models(self.pending@) == pending_models(pre_pending) + pending_added(
                    dm.skip(j as int),
                    excl,
                    gnd,
                ),
            decreases j,
        {
            j -= 1;
            let ghost pend_pre = self.pending@;
            if keep[j] {
                proof {
                    assert(within_depth(gnd, self.max_depth));
                }
                self.pending.push(
                    PendingDir { canon: subdirs[j].canon.clone(), depth: nd },
                );
                proof {
                    assert(dm[j as int] == subdirs@[j as int]@);
                    assert(pending_models(self.pending@) =~= pending_models(pend_pre).push(
                        PendingModel { canon: dm[j as int].canon, depth: gnd },
                    ));
                }
            }
            proof {
                assert(dm.skip(j as int) =~= seq![dm[j as int]] + dm.skip(j + 1 as int));
                lemma_pending_added_cons(dm[j as int], dm.skip(j + 1 as int), excl, gnd);
                assert(pending_models(self.pending@) =~= pending_models(pre_pending)
                    + pending_added(dm.skip(j as int), excl, gnd));
            }
        }
        proof {
            assert(dm.skip(0) =~= dm);
        }
        self.listing_open = false;
    }

    /// Ends the walk: the collected units sorted by `(name, variant)` —
    /// the same multiset of units, in the presentation order.
    pub fn finish(&self) -> (r: Vec<Service>)
        ensures
            models_of(r@) == sort_svc(models_of(self.services@)),
            crate::service::services_sorted(models_of(r@)),
            models_of(r@).to_multiset() == models_of(self.services@).to_multiset(),
    {
        proof {
            crate::service::lemma_sort_svc_sorted(models_of(self.services@));
            crate::service::lemma_sort_svc_multiset(models_of(self.services@));
        }
        sort_services(&self.services)
    }
}

/// Cycle safety: however the walk was driven, no two directories it handed
/// out for listing share a canonical path.
pub proof fn lemma_no_repeat_visits(w: &Walker)
    requires
        w.wf(),
    ensures
        forall|i: int, j: int|
            0 <= i < j < w.handed@.len() ==> w.handed@[i] != w.handed@[j],
{
}

/// Depth bound: every unit collected so far was produced from a directory
/// within the configured bound.
pub proof fn lemma_units_within_depth(w: &Walker)
    requires
        w.wf(),
    ensures
        forall|i: int|
            0 <= i < w.svc_depths@.len() ==> within_depth(w.svc_depths@[i], w.max_depth),
{
}

/// A directory name the walk will not enter.
fn eligible_name(name: &str, excluded: &Vec<String>) -> (r: bool)
    ensures
        r == name_eligible(name@, views_of(excluded@)),
{
    let hidden = if name.unicode_len() > 0 {
        name.get_char(0) == '.'
    } else {
        false
    };
    if hidden {
        return false;
    }
    if str_eq(name, "target") || str_eq(name, "node_modules") || str_eq(name, "vendor") {
        return false;
    }
    !contains_string(excluded, name)
}

} // verus!
