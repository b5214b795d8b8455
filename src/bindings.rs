use vstd::prelude::*;
use vstd::string::StringExecFns;
use crate::action::{Action, steps};

verus! {

/// What a destination path is on disk when the bindings are read.
#[derive(PartialEq, Eq, Clone, Copy, Debug)]
pub enum PathKind {
    Missing,
    Directory,
    Other,
}

/// A trigger key and the directory that images are moved to with it.
#[derive(PartialEq, Eq, Clone, Debug)]
pub struct Binding {
    pub key: char,
    pub dest: String,
}

/// The configuration error of the bindings: a destination exists and is not
/// a directory.
#[derive(PartialEq, Eq, Clone, Debug)]
pub enum BindError {
    NotADirectory(String),
}

impl BindError {
    pub open spec fn spec_message(&self) -> Seq<char> {
        match self {
            BindError::NotADirectory(p) => p@ + " exists and it's not a directory!"@,
        }
    }

    /// The text shown to the user.
    pub fn message(&self) -> (r: String)
        ensures
            r@ == self.spec_message(),
    {
        match self {
            BindError::NotADirectory(p) => p.clone().concat(" exists and it's not a directory!"),
        }
    }
}

/// The bindings of a list in force: a later binding of a key replaces an
/// earlier one.
pub open spec fn binding_map(b: Seq<Binding>) -> Map<char, Seq<char>>
    decreases b.len(),
{
    if b.len() == 0 {
        Map::empty()
    } else {
        binding_map(b.drop_last()).insert(b.last().key, b.last().dest@)
    }
}

/// The bindings that a list of requests asks for, later ones winning.
pub open spec fn requested_map(args: Seq<(char, String, PathKind)>) -> Map<char, Seq<char>>
    decreases args.len(),
{
    if args.len() == 0 {
        Map::empty()
    } else {
        requested_map(args.drop_last()).insert(args.last().0, args.last().1@)
    }
}

/// One mkdir for each requested destination that is missing, in request order.
pub open spec fn seeded(args: Seq<(char, String, PathKind)>) -> Seq<Action>
    decreases args.len(),
{
    if args.len() == 0 {
        Seq::empty()
    } else if args.last().2 == PathKind::Missing {
        seeded(args.drop_last()).push(Action::MkDir(args.last().1))
    } else {
        seeded(args.drop_last())
    }
}

/// Whether request `i` is the first whose destination exists and is not a
/// directory.
pub open spec fn first_conflict(args: Seq<(char, String, PathKind)>, i: int) -> bool {
    &&& 0 <= i < args.len()
    &&& args[i].2 == PathKind::Other
    &&& forall|j: int| 0 <= j < i ==> args[j].2 != PathKind::Other
}

/// No key is bound twice.
pub open spec fn keys_unique(b: Seq<Binding>) -> bool {
    forall|i: int, j: int| 0 <= i < j < b.len() ==> b[i].key != b[j].key
}

proof fn lemma_unique_map(b: Seq<Binding>)
    requires
        keys_unique(b),
    ensures
        forall|i: int|
            0 <= i < b.len() ==> binding_map(b).contains_key(#[trigger] b[i].key) && binding_map(
                b,
            )[b[i].key] == b[i].dest@,
        forall|k: char|
            binding_map(b).contains_key(k) ==> exists|i: int| 0 <= i < b.len() && b[i].key == k,
    decreases b.len(),
{
    if b.len() > 0 {
        let p = b.drop_last();
        lemma_unique_map(p);
        assert forall|k: char| binding_map(b).contains_key(k) implies exists|i: int|
            0 <= i < b.len() && b[i].key == k by {
            if k != b.last().key {
                assert(binding_map(p).contains_key(k));
                let i = choose|i: int| 0 <= i < p.len() && p[i].key == k;
                assert(p[i] == b[i]);
                assert(b[i].key == k);
            } else {
                assert(b[b.len() - 1].key == k);
            }
        }
        assert forall|i: int| 0 <= i < b.len() implies binding_map(b).contains_key(
            #[trigger] b[i].key,
        ) && binding_map(b)[b[i].key] == b[i].dest@ by {
            if i < b.len() - 1 {
                assert(p[i] == b[i]);
            }
        }
    }
}

/// Binds `key` to `dest`, in place of any earlier binding of `key`.
fn insert_binding(bindings: &mut Vec<Binding>, key: char, dest: String)
    requires
        keys_unique(old(bindings)@),
    ensures
        keys_unique(final(bindings)@),
        binding_map(final(bindings)@) == binding_map(old(bindings)@).insert(key, dest@),
{
    let ghost start = bindings@;
    let mut i: usize = 0;
    while i < bindings.len()
        invariant
            i <= bindings@.len(),
            bindings@ == start,
            start == old(bindings)@,
            keys_unique(bindings@),
            forall|j: int| 0 <= j < i ==> bindings@[j].key != key,
        decreases bindings@.len() - i,
    {
        if bindings[i].key == key {
            let ghost before = bindings@;
            let b = Binding { key, dest };
            bindings[i] = b;
            proof {
                let after = bindings@;
                assert(after == before.update(i as int, b));
                assert(keys_unique(after)) by {
                    assert forall|x: int, y: int| 0 <= x < y < after.len() implies after[x].key
                        != after[y].key by {
                        if x != i && y != i {
                            assert(after[x] == before[x] && after[y] == before[y]);
                        }
                    }
                }
                lemma_unique_map(before);
                lemma_unique_map(after);
                let ob = binding_map(before);
                let nb = binding_map(after);
                let want = ob.insert(key, b.dest@);
                assert forall|k: char| #[trigger] nb.contains_key(k) == want.contains_key(k) && (
                nb.contains_key(k) ==> nb[k] == want[k]) by {
                    if k == key {
                        assert(after[i as int].key == key);
                    } else {
                        if nb.contains_key(k) {
                            let j = choose|j: int| 0 <= j < after.len() && after[j].key == k;
                            assert(after[j] == before[j]);
                        }
                        if ob.contains_key(k) {
                            let j = choose|j: int| 0 <= j < before.len() && before[j].key == k;
                            assert(after[j] == before[j]);
                        }
                    }
                }
                assert(nb =~= want);
            }
            return;
        }
        i = i + 1;
    }
    let ghost old_b = bindings@;
    let b = Binding { key, dest };
    bindings.push(b);
    proof {
        lemma_push_drop_last(old_b, b);
        assert(bindings@ == old_b.push(b));
        assert(binding_map(old_b.push(b)) == binding_map(old_b).insert(b.key, b.dest@));
        assert(keys_unique(bindings@)) by {
            assert forall|x: int, y: int| 0 <= x < y < bindings@.len() implies bindings@[x].key
                != bindings@[y].key by {
                if y == old_b.len() {
                    assert(bindings@[x] == old_b[x]);
                } else {
                    assert(bindings@[x] == old_b[x] && bindings@[y] == old_b[y]);
                }
            }
        }
    }
}

proof fn lemma_push_drop_last(s: Seq<Binding>, b: Binding)
    ensures
        s.push(b).drop_last() == s,
        s.push(b).last() == b,
{
    assert(s.push(b).drop_last() =~= s);
}

pub proof fn lemma_seeded_no_steps(args: Seq<(char, String, PathKind)>)
    ensures
        steps(seeded(args)) == 0,
        forall|i: int| 0 <= i < seeded(args).len() ==> seeded(args)[i] is MkDir,
    decreases args.len(),
{
    if args.len() > 0 {
        lemma_seeded_no_steps(args.drop_last());
        let s = seeded(args.drop_last());
        if args.last().2 == PathKind::Missing {
            assert(s.push(Action::MkDir(args.last().1)).drop_last() =~= s);
        }
    }
}

/// Checks each (key, destination, kind on disk) request in order. A
/// destination that exists and is not a directory is refused; one that is
/// missing gets a mkdir action. Returns the bindings and those actions.
pub fn parse_key_mapping(args: Vec<(char, String, PathKind)>) -> (r: Result<
    (Vec<Binding>, Vec<Action>),
    BindError,
>)
    ensures
        match r {
            Ok((b, a)) => {
                &&& forall|i: int| 0 <= i < args@.len() ==> args@[i].2 != PathKind::Other
                &&& binding_map(b@) == requested_map(args@)
                &&& keys_unique(b@)
                &&& a@ == seeded(args@)
                &&& steps(a@) == 0
            },
            Err(BindError::NotADirectory(p)) => exists|i: int|
                first_conflict(args@, i) && p == args@[i].1,
        },
{
    let mut bindings: Vec<Binding> = Vec::new();
    let mut actions: Vec<Action> = Vec::new();
    let mut i: usize = 0;
    while i < args.len()
        invariant
            i <= args@.len(),
            forall|j: int| 0 <= j < i ==> args@[j].2 != PathKind::Other,
            binding_map(bindings@) == requested_map(args@.take(i as int)),
            keys_unique(bindings@),
            actions@ == seeded(args@.take(i as int)),
        decreases args@.len() - i,
    {
        let key = args[i].0;
        let dest = args[i].1.clone();
        let ghost pre = args@.take(i as int);
        let ghost next = args@.take(i as int + 1);
        assert(next.drop_last() =~= pre);
        match args[i].2 {
            PathKind::Other => {
                assert(first_conflict(args@, i as int));
                return Err(BindError::NotADirectory(dest));
            },
            PathKind::Missing => {
                actions.push(Action::MkDir(dest.clone()));
            },
            PathKind::Directory => {},
        }
        insert_binding(&mut bindings, key, dest);
        assert(next.last() == args@[i as int]);
        i = i + 1;
    }
    assert(args@.take(args@.len() as int) =~= args@);
    proof {
        lemma_seeded_no_steps(args@);
    }
    Ok((bindings, actions))
}

/// The destination bound to `key`, if any.
pub fn lookup(bindings: &Vec<Binding>, key: char) -> (r: Option<String>)
    ensures
        match r {
            Some(d) => binding_map(bindings@).contains_key(key) && d@ == binding_map(
                bindings@,
            )[key],
            None => !binding_map(bindings@).contains_key(key),
        },
{
    let mut k: usize = bindings.len();
    assert(bindings@.take(k as int) =~= bindings@);
    while k > 0
        invariant
            k <= bindings@.len(),
            forall|j: int| k <= j < bindings@.len() ==> bindings@[j].key != key,
            binding_map(bindings@).contains_key(key) == binding_map(
                bindings@.take(k as int),
            ).contains_key(key),
            binding_map(bindings@).contains_key(key) ==> binding_map(bindings@)[key]
                == binding_map(bindings@.take(k as int))[key],
        decreases k,
    {
        let ghost t = bindings@.take(k as int);
        assert(t.drop_last() =~= bindings@.take(k - 1));
        if bindings[k - 1].key == key {
            return Some(bindings[k - 1].dest.clone());
        }
        k = k - 1;
    }
    None
}

} // verus!
