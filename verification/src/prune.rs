//! The directory names the crawl never descends into: the built-in ones and
//! any that the user appends, comma-separated.
use vstd::prelude::*;
use crate::order::text_equal;
use crate::text::{
    chars_of, lemma_filter_step, non_empty, split_chars, split_on, text_of, trim, trimmed,
};

verus! {

/// A set of directory names, each held once.
pub struct PruneSet {
    names: Vec<String>,
}

impl View for PruneSet {
    type V = Seq<Seq<char>>;

    /// The names, in no particular order.
    closed spec fn view(&self) -> Seq<Seq<char>> {
        self.names.deep_view()
    }
}

impl PruneSet {
    #[verifier::type_invariant]
    spec fn names_once(self) -> bool {
        self.names.deep_view().no_duplicates()
    }

    /// Whether `name` is in the set.
    pub fn contains(&self, name: &str) -> (r: bool)
        ensures
            r == self@.contains(name@),
    {
        let wanted = chars_of(name);
        let mut i: usize = 0;
        while i < self.names.len()
            invariant
                i <= self.names.len(),
                wanted@ == name@,
                forall|k: int| 0 <= k < i ==> self@[k] != name@,
            decreases self.names.len() - i,
        {
            assert(self@[i as int] == self.names@[i as int]@);
            if text_equal(&chars_of(self.names[i].as_str()), &wanted) {
                return true;
            }
            i = i + 1;
        }
        false
    }

    /// How many names the set holds.
    pub fn len(&self) -> (n: usize)
        ensures
            n == self@.len(),
    {
        self.names.len()
    }

    /// Whether the crawl descends into an entry with the given name: always
    /// where the name is not text, else unless the set holds it.
    pub fn descends_into(&self, name: Option<&str>) -> (r: bool)
        ensures
            r == match name {
                Some(n) => !self@.contains(n@),
                None => true,
            },
    {
        match name {
            Some(n) => !self.contains(n),
            None => true,
        }
    }

    /// The names, each once, in no particular order.
    pub fn names(&self) -> (names: Vec<String>)
        ensures
            names.deep_view() == self@,
            names.deep_view().no_duplicates(),
    {
        proof {
            use_type_invariant(self);
        }
        self.names.clone()
    }

    /// Adds `name` where it is not held yet.
    fn insert(&mut self, name: String)
        ensures
            final(self)@.to_set() == old(self)@.to_set().insert(name@),
    {
        proof {
            use_type_invariant(&*self);
        }
        if !self.contains(name.as_str()) {
            let ghost before = self@;
            let mut names: Vec<String> = Vec::new();
            std::mem::swap(&mut names, &mut self.names);
            names.push(name);
            assert(names.deep_view() =~= before.push(name@));
            self.names = names;
            proof {
                before.lemma_push_to_set_commute(name@);
            }
        } else {
            assert(self@.to_set() =~= self@.to_set().insert(name@));
        }
    }
}

/// The names always pruned: `node_modules`, `.terraform` and `.git`.
pub open spec fn default_pruned() -> Seq<Seq<char>> {
    seq!["node_modules"@, ".terraform"@, ".git"@]
}

/// The names a user's list appends: its comma-separated pieces, trimmed,
/// the empty ones dropped.
pub open spec fn extra_pruned(extra: Option<Seq<char>>) -> Seq<Seq<char>> {
    match extra {
        Some(list) => split_on(list, ',').map_values(|piece: Seq<char>| trimmed(piece)).filter(non_empty()),
        None => Seq::empty(),
    }
}

/// The names the crawl never descends into: the built-in ones plus those of
/// the user's comma-separated list (each trimmed; empty ones dropped).
pub fn prune_set(extra: Option<String>) -> (set: PruneSet)
    ensures
        set@.no_duplicates(),
        set@.to_set() == pruned(
            match extra {
                Some(e) => Some(e@),
                None => None,
            },
        ),
{
    let mut set = PruneSet { names: Vec::new() };
    set.insert("node_modules".to_owned());
    set.insert(".terraform".to_owned());
    set.insert(".git".to_owned());
    assert(default_pruned().to_set() =~= set@.to_set()) by {
        assert(default_pruned()[0] == "node_modules"@);
        assert(default_pruned()[1] == ".terraform"@);
        assert(default_pruned()[2] == ".git"@);
        assert forall|x: Seq<char>| default_pruned().contains(x) implies set@.to_set().contains(x) by {
            let k = choose|k: int| 0 <= k < 3 && default_pruned()[k] == x;
        }
        assert forall|x: Seq<char>| set@.to_set().contains(x) implies default_pruned().contains(x) by {
            if x == "node_modules"@ {
                assert(default_pruned()[0] == x);
            } else if x == ".terraform"@ {
                assert(default_pruned()[1] == x);
            } else {
                assert(default_pruned()[2] == x);
            }
        }
    }
    match extra {
        None => {
            assert(extra_pruned(None).to_set() =~= Set::<Seq<char>>::empty());
            assert(set@.to_set() =~= default_pruned().to_set() + Set::<Seq<char>>::empty());
        },
        Some(list) => {
            let pieces = split_chars(&chars_of(list.as_str()), ',');
            let ghost pv = pieces.deep_view();
            let ghost names = pv.map_values(|piece: Seq<char>| trimmed(piece));
            let ghost keep = non_empty();
            let mut i: usize = 0;
            while i < pieces.len()
                invariant
                    i <= pieces.len(),
                    pv == pieces.deep_view(),
                    keep == non_empty(),
                    names == pv.map_values(|piece: Seq<char>| trimmed(piece)),
                    set@.to_set() == default_pruned().to_set() + names.take(i as int).filter(keep).to_set(),
                decreases pieces.len() - i,
            {
                let piece = text_of(&pieces[i]);
                let name = trim(piece.as_str());
                proof {
                    assert(pv[i as int] =~= pieces@[i as int]@);
                    assert(names[i as int] == name@);
                    lemma_filter_step(names, keep, i as int);
                }
                if !name.as_str().is_empty() {
                    set.insert(name);
                    proof {
                        assert(names.take(i + 1).filter(keep) == names.take(i as int).filter(keep).push(names[i as int]));
                        names.take(i as int).filter(keep).lemma_push_to_set_commute(names[i as int]);
                        assert(set@.to_set() =~= default_pruned().to_set() + names.take(i + 1).filter(keep).to_set());
                    }
                } else {
                    assert(names.take(i + 1).filter(keep) == names.take(i as int).filter(keep));
                }
                i = i + 1;
            }
            assert(names.take(i as int) =~= names);
        },
    }
    proof {
        use_type_invariant(&set);
    }
    set
}

/// The names pruned for a user's list.
pub open spec fn pruned(extra: Option<Seq<char>>) -> Set<Seq<char>> {
    default_pruned().to_set() + extra_pruned(extra).to_set()
}

/// The built-in names are pruned whatever the user's list holds.
pub proof fn lemma_defaults_always_pruned(extra: Option<Seq<char>>)
    ensures
        pruned(extra).contains("node_modules"@),
        pruned(extra).contains(".terraform"@),
        pruned(extra).contains(".git"@),
{
    assert(default_pruned()[0] == "node_modules"@);
    assert(default_pruned()[1] == ".terraform"@);
    assert(default_pruned()[2] == ".git"@);
}

/// Every piece of the user's comma-separated list that is not blank is
/// pruned, trimmed; and nothing is pruned but the built-in names and such
/// pieces.
pub proof fn lemma_every_listed_name_pruned(list: Seq<char>)
    ensures
        forall|k: int|
            0 <= k < split_on(list, ',').len() && trimmed(#[trigger] split_on(list, ',')[k]).len() > 0
                ==> pruned(Some(list)).contains(trimmed(split_on(list, ',')[k])),
        forall|x: Seq<char>|
            #[trigger] pruned(Some(list)).contains(x) ==> default_pruned().contains(x) || exists|k: int|
                0 <= k < split_on(list, ',').len() && x.len() > 0 && #[trigger] trimmed(
                    split_on(list, ',')[k],
                ) == x,
{
    let pieces = split_on(list, ',');
    let names = pieces.map_values(|piece: Seq<char>| trimmed(piece));
    assert forall|k: int|
        0 <= k < pieces.len() && trimmed(#[trigger] pieces[k]).len() > 0 implies pruned(
        Some(list),
    ).contains(trimmed(pieces[k])) by {
        assert(names[k] == trimmed(pieces[k]));
        names.lemma_filter_contains(non_empty(), k);
    }
    assert forall|x: Seq<char>| #[trigger] pruned(Some(list)).contains(x) implies default_pruned().contains(x)
        || exists|k: int| 0 <= k < pieces.len() && x.len() > 0 && #[trigger] trimmed(pieces[k]) == x by {
        if !default_pruned().contains(x) {
            assert(names.filter(non_empty()).contains(x));
            names.lemma_filter_contains_rev(non_empty(), x);
            let i = choose|i: int| 0 <= i < names.filter(non_empty()).len() && names.filter(non_empty())[i] == x;
            names.lemma_filter_pred(non_empty(), i);
            let k = choose|k: int| 0 <= k < names.len() && names[k] == x;
            assert(trimmed(pieces[k]) == x);
        }
    }
}

/// An empty list, or one of blanks and commas only, adds nothing.
pub proof fn lemma_blank_list_adds_nothing(list: Seq<char>)
    requires
        forall|k: int|
            0 <= k < split_on(list, ',').len() ==> trimmed(#[trigger] split_on(list, ',')[k]).len()
                == 0,
    ensures
        pruned(Some(list)) == default_pruned().to_set(),
{
    let names = split_on(list, ',').map_values(|piece: Seq<char>| trimmed(piece));
    assert forall|x: Seq<char>| !names.filter(non_empty()).contains(x) by {
        if names.filter(non_empty()).contains(x) {
            names.lemma_filter_contains_rev(non_empty(), x);
            let i = choose|i: int| 0 <= i < names.filter(non_empty()).len() && names.filter(non_empty())[i] == x;
            names.lemma_filter_pred(non_empty(), i);
        }
    }
    assert(pruned(Some(list)) =~= default_pruned().to_set());
}

} // verus!
