//! Record model: the logical per-user state held in a storage slot.

use vstd::prelude::*;

verus! {

/// Mathematical model of a user record: the online flag plus the friend
/// list as a sequence of (key, annotation) byte-string pairs with unique
/// keys.
pub struct UserView {
    pub online: u8,
    pub friends: Seq<(Seq<u8>, Seq<u8>)>,
}

impl UserView {
    /// Keys are pairwise distinct.
    pub open spec fn wf(self) -> bool {
        forall|i: int, j: int|
            0 <= i < j < self.friends.len() ==> self.friends[i].0 != self.friends[j].0
    }

    /// Some entry carries `key`.
    pub open spec fn has_friend_key(self, key: Seq<u8>) -> bool {
        exists|i: int| 0 <= i < self.friends.len() && self.friends[i].0 == key
    }

    /// Index of the entry carrying `key` (unique when `wf()` holds).
    pub open spec fn friend_index(self, key: Seq<u8>) -> int {
        choose|i: int| 0 <= i < self.friends.len() && self.friends[i].0 == key
    }

    /// Record after an add-friend operation: appends `key` with an empty
    /// annotation, or leaves the record unchanged when `key` is already
    /// present.
    pub open spec fn add_friend_spec(self, key: Seq<u8>) -> UserView {
        if self.has_friend_key(key) {
            self
        } else {
            UserView { online: self.online, friends: self.friends.push((key, Seq::empty())) }
        }
    }

    /// Record after a remove-friend operation: drops the entry carrying
    /// `key`, or leaves the record unchanged when `key` is absent.
    pub open spec fn remove_friend_spec(self, key: Seq<u8>) -> UserView {
        if self.has_friend_key(key) {
            UserView { online: self.online, friends: self.friends.remove(self.friend_index(key)) }
        } else {
            self
        }
    }

    /// Record with the online flag overwritten.
    pub open spec fn with_online(self, online: u8) -> UserView {
        UserView { online, friends: self.friends }
    }

    /// The state of a slot that has never been written: offline, no friends.
    pub open spec fn default_spec() -> UserView {
        UserView { online: 0, friends: Seq::empty() }
    }
}

/// The friend list of an executable record, as its mathematical view.
pub open spec fn pairs_view(pairs: Seq<(Vec<u8>, Vec<u8>)>) -> Seq<(Seq<u8>, Seq<u8>)> {
    Seq::new(pairs.len(), |i: int| (pairs[i].0@, pairs[i].1@))
}

/// The logical user record: an online flag (0 = offline, 1 = online) and a
/// map from friend identifier to an annotation byte string (currently always
/// written empty; reserved for future metadata). Keys are unique; insertion
/// order carries no meaning.
#[derive(Debug, Clone, PartialEq, Eq)]
pub struct User {
    pub online: u8,
    pub friends: Vec<(Vec<u8>, Vec<u8>)>,
}

impl View for User {
    type V = UserView;

    open spec fn view(&self) -> UserView {
        UserView { online: self.online, friends: pairs_view(self.friends@) }
    }
}

impl Default for User {
    /// A fresh record: offline, empty friend set.
    fn default() -> (u: User)
        ensures
            u@ == UserView::default_spec(),
            u@.wf(),
    {
        let u = User { online: 0, friends: Vec::new() };
        proof {
            assert(u@.friends =~= Seq::<(Seq<u8>, Seq<u8>)>::empty());
        }
        u
    }
}

/// Byte-string equality, stated over the views.
pub fn bytes_eq(a: &Vec<u8>, b: &Vec<u8>) -> (r: bool)
    ensures
        r == (a@ == b@),
{
    if a.len() != b.len() {
        return false;
    }
    let n = a.len();
    let mut i: usize = 0;
    while i < n
        invariant
            n == a@.len() == b@.len(),
            0 <= i <= n,
            forall|j: int| 0 <= j < i ==> a@[j] == b@[j],
        decreases n - i,
    {
        if a[i] != b[i] {
            return false;
        }
        i += 1;
    }
    proof {
        assert(a@ =~= b@);
    }
    true
}

/// Adding a friend is idempotent on the record: a second add of the same
/// key changes nothing, because the first one left the key present.
pub proof fn lemma_add_friend_idempotent(r: UserView, key: Seq<u8>)
    ensures
        r.add_friend_spec(key).has_friend_key(key),
        r.add_friend_spec(key).add_friend_spec(key) == r.add_friend_spec(key),
{
    if !r.has_friend_key(key) {
        let f1 = r.add_friend_spec(key).friends;
        assert(f1[f1.len() - 1].0 == key);
    }
}

/// Removing an absent friend leaves the record unchanged.
pub proof fn lemma_remove_absent_friend_noop(r: UserView, key: Seq<u8>)
    requires
        !r.has_friend_key(key),
    ensures
        r.remove_friend_spec(key) == r,
{
}

/// Going online and then offline restores an offline record exactly; going
/// offline when already offline changes nothing.
pub proof fn lemma_toggle_symmetry(r: UserView)
    ensures
        r.with_online(1).with_online(0) == r.with_online(0),
        r.online == 0 ==> r.with_online(0) == r,
        r.online == 0 ==> r.with_online(1).with_online(0) == r,
{
}

/// Adding a friend preserves well-formedness.
pub proof fn lemma_add_friend_wf(r: UserView, key: Seq<u8>)
    requires
        r.wf(),
    ensures
        r.add_friend_spec(key).wf(),
{
    if !r.has_friend_key(key) {
        let f1 = r.add_friend_spec(key).friends;
        assert forall|i: int, j: int| 0 <= i < j < f1.len() implies f1[i].0 != f1[j].0 by {
            if j == f1.len() - 1 {
                assert(r.friends[i].0 != key);
            }
        }
    }
}

/// A fresh copy of a byte string.
pub fn clone_bytes(v: &Vec<u8>) -> (r: Vec<u8>)
    ensures
        r@ == v@,
{
    let n = v.len();
    let mut out: Vec<u8> = Vec::new();
    let mut i: usize = 0;
    while i < n
        invariant
            n == v@.len(),
            0 <= i <= n,
            out@ == v@.subrange(0, i as int),
        decreases n - i,
    {
        out.push(v[i]);
        i += 1;
        proof {
            assert(out@ =~= v@.subrange(0, i as int));
        }
    }
    proof {
        assert(v@.subrange(0, n as int) =~= v@);
    }
    out
}

impl User {
    /// Membership test on the friend set.
    pub fn has_friend(&self, key: &Vec<u8>) -> (r: bool)
        ensures
            r == self@.has_friend_key(key@),
    {
        let n = self.friends.len();
        let mut i: usize = 0;
        while i < n
            invariant
                n == self.friends@.len(),
                0 <= i <= n,
                forall|j: int| 0 <= j < i ==> self@.friends[j].0 != key@,
            decreases n - i,
        {
            if bytes_eq(&self.friends[i].0, key) {
                proof {
                    assert(self@.friends[i as int].0 == key@);
                }
                return true;
            }
            i += 1;
        }
        false
    }

    /// Index of the entry carrying `key`, if any.
    fn find_friend(&self, key: &Vec<u8>) -> (r: Option<usize>)
        ensures
            match r {
                Some(i) => i < self.friends@.len() && self@.friends[i as int].0 == key@,
                None => !self@.has_friend_key(key@),
            },
    {
        let n = self.friends.len();
        let mut i: usize = 0;
        while i < n
            invariant
                n == self.friends@.len(),
                0 <= i <= n,
                forall|j: int| 0 <= j < i ==> self@.friends[j].0 != key@,
            decreases n - i,
        {
            if bytes_eq(&self.friends[i].0, key) {
                return Some(i);
            }
            i += 1;
        }
        None
    }

    /// Inserts `key` with an empty annotation; a no-op when `key` is already
    /// present. Returns whether the record changed.
    pub fn add_friend(&mut self, key: Vec<u8>) -> (added: bool)
        ensures
            final(self)@ == old(self)@.add_friend_spec(key@),
            added == !old(self)@.has_friend_key(key@),
            old(self)@.wf() ==> final(self)@.wf(),
    {
        let ghost before = self@;
        if self.has_friend(&key) {
            false
        } else {
            let ghost keyv = key@;
            self.friends.push((key, Vec::new()));
            proof {
                assert(self@.friends =~= before.friends.push((keyv, Seq::<u8>::empty())));
                assert(self@ == before.add_friend_spec(keyv));
                if before.wf() {
                    assert forall|i: int, j: int|
                        0 <= i < j < self@.friends.len() implies self@.friends[i].0
                        != self@.friends[j].0 by {
                        if j == self@.friends.len() - 1 {
                            assert(!before.has_friend_key(keyv));
                            assert(before.friends[i].0 != keyv);
                        }
                    }
                }
            }
            true
        }
    }

    /// Removes the entry carrying `key`; a no-op when `key` is absent.
    /// Returns whether an entry was removed.
    pub fn remove_friend(&mut self, key: &Vec<u8>) -> (removed: bool)
        requires
            old(self)@.wf(),
        ensures
            final(self)@ == old(self)@.remove_friend_spec(key@),
            removed == old(self)@.has_friend_key(key@),
            final(self)@.wf(),
    {
        let ghost before = self@;
        match self.find_friend(key) {
            Some(i) => {
                self.friends.remove(i);
                proof {
                    let k = before.friend_index(key@);
                    assert(0 <= k < before.friends.len() && before.friends[k].0 == key@);
                    assert(k == i as int);
                    assert(self@.friends =~= before.friends.remove(i as int));
                    assert(self@ == before.remove_friend_spec(key@));
                }
                true
            },
            None => false,
        }
    }

    /// Sets the online flag (1 = online).
    pub fn set_online(&mut self)
        ensures
            final(self)@ == old(self)@.with_online(1),
    {
        self.online = 1;
    }

    /// Clears the online flag (0 = offline).
    pub fn set_offline(&mut self)
        ensures
            final(self)@ == old(self)@.with_online(0),
    {
        self.online = 0;
    }
}

} // verus!
