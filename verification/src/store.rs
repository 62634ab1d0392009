//! The record store: per-POI message threads and the user registry.
//!
//! The store is a plain in-memory value. Reads project it to public-safe
//! shapes (sender names instead of identifiers, public identifiers instead of
//! private ones); mutations append a message to a POI's thread or upsert a
//! user. The mathematical model of a store is a [`StoreModel`]: a sequence of
//! POI buckets with pairwise distinct POI indices and a sequence of users
//! with pairwise distinct private identifiers.

use vstd::prelude::*;

use crate::identity::{hash_user_domain, spec_public_id, UserId};

verus! {

// ---------------------------------------------------------------------------
// Data types
// ---------------------------------------------------------------------------

/// A stored message, immutable once created.
pub struct Message {
    /// Private identifier of the sender; never exposed by read views.
    pub sender: UserId,
    /// Index of the point of interest the message is tied to.
    pub poi: usize,
    /// Wall-clock creation time, in milliseconds since the epoch.
    pub time: i64,
    /// The message text.
    pub message: String,
}

/// The public projection of a message: the sender resolved to a name.
pub struct MessageString {
    /// The sender's registered name, or a fixed fallback for unknown senders.
    pub sender: String,
    /// Wall-clock creation time, in milliseconds since the epoch.
    pub time: i64,
    /// The message text.
    pub message: String,
}

/// A registered user as stored: keyed by the private identifier.
pub struct UserPrivate {
    pub(crate) name: String,
    pub(crate) points: usize,
    pub(crate) id_private: UserId,
}

/// The public projection of a user: the identifier is the derived public one.
pub struct User {
    pub name: String,
    pub points: usize,
    pub id_public: UserId,
}

/// One POI's message thread, in insertion order.
pub(crate) struct Bucket {
    pub(crate) poi: usize,
    pub(crate) msgs: Vec<Message>,
}

/// The record store: all message threads and the user registry, plus the
/// file path the surrounding process loads it from and saves it to.
pub struct Storage {
    pub(crate) messages: Vec<Bucket>,
    pub(crate) private_users: Vec<UserPrivate>,
    pub(crate) path: String,
}

// ---------------------------------------------------------------------------
// Mathematical model
// ---------------------------------------------------------------------------

/// Model of a stored message.
#[verifier::ext_equal]
pub struct MsgModel {
    pub sender: UserId,
    pub poi: int,
    pub time: int,
    pub text: Seq<char>,
}

/// Model of a projected message: the sender is a resolved name.
#[verifier::ext_equal]
pub struct MsgViewModel {
    pub sender: Seq<char>,
    pub time: int,
    pub text: Seq<char>,
}

/// Model of a registered user.
#[verifier::ext_equal]
pub struct UserModel {
    pub id: UserId,
    pub name: Seq<char>,
    pub points: int,
}

/// Model of a projected user: the identifier is the derived public one.
#[verifier::ext_equal]
pub struct PubUserModel {
    pub id_public: UserId,
    pub name: Seq<char>,
    pub points: int,
}

/// Model of one POI's thread.
#[verifier::ext_equal]
pub struct BucketModel {
    pub poi: int,
    pub msgs: Seq<MsgModel>,
}

/// Model of the whole store's contents (the bound file path is kept apart,
/// since it is not part of the persisted contents).
#[verifier::ext_equal]
pub struct StoreModel {
    pub buckets: Seq<BucketModel>,
    pub users: Seq<UserModel>,
}

impl Message {
    pub open spec fn model(self) -> MsgModel {
        MsgModel { sender: self.sender, poi: self.poi as int, time: self.time as int, text: self.message@ }
    }
}

impl MessageString {
    pub open spec fn model(self) -> MsgViewModel {
        MsgViewModel { sender: self.sender@, time: self.time as int, text: self.message@ }
    }
}

impl UserPrivate {
    pub open(crate) spec fn model(self) -> UserModel {
        UserModel { id: self.id_private, name: self.name@, points: self.points as int }
    }
}

impl User {
    pub open spec fn model(self) -> PubUserModel {
        PubUserModel { id_public: self.id_public, name: self.name@, points: self.points as int }
    }
}

impl Bucket {
    pub(crate) open spec fn model(self) -> BucketModel {
        BucketModel { poi: self.poi as int, msgs: self.msgs@.map(|i: int, m: Message| m.model()) }
    }
}

impl BucketModel {
    /// Every message in a bucket carries the bucket's own POI index.
    pub open spec fn wf(self) -> bool {
        forall|j: int| 0 <= j < self.msgs.len() ==> (#[trigger] self.msgs[j]).poi == self.poi
    }
}

impl StoreModel {
    pub open spec fn empty() -> StoreModel {
        StoreModel { buckets: Seq::empty(), users: Seq::empty() }
    }

    /// Well-formedness: POI indices and private identifiers are unique keys,
    /// and each message sits in the bucket of its own POI.
    pub open spec fn wf(self) -> bool {
        &&& forall|i: int, j: int|
            0 <= i < j < self.buckets.len() ==> (#[trigger] self.buckets[i]).poi != (
            #[trigger] self.buckets[j]).poi
        &&& forall|i: int| 0 <= i < self.buckets.len() ==> (#[trigger] self.buckets[i]).wf()
        &&& forall|i: int, j: int|
            0 <= i < j < self.users.len() ==> (#[trigger] self.users[i]).id != (
            #[trigger] self.users[j]).id
    }

    /// Whether some bucket is keyed by this POI index.
    pub open spec fn has_poi(self, poi: int) -> bool {
        exists|i: int| 0 <= i < self.buckets.len() && (#[trigger] self.buckets[i]).poi == poi
    }

    /// The index of the bucket keyed by this POI index (meaningful only when
    /// `has_poi` holds; unique under `wf`).
    pub open spec fn poi_index(self, poi: int) -> int {
        choose|i: int| 0 <= i < self.buckets.len() && (#[trigger] self.buckets[i]).poi == poi
    }

    /// The thread for a POI, in insertion order; empty for an unknown POI.
    pub open spec fn msgs_for(self, poi: int) -> Seq<MsgModel> {
        if self.has_poi(poi) {
            self.buckets[self.poi_index(poi)].msgs
        } else {
            Seq::empty()
        }
    }

    /// Whether some user is registered under this private identifier.
    pub open spec fn has_user(self, id: UserId) -> bool {
        exists|i: int| 0 <= i < self.users.len() && (#[trigger] self.users[i]).id == id
    }

    /// The index of the user registered under this private identifier
    /// (meaningful only when `has_user` holds; unique under `wf`).
    pub open spec fn user_index(self, id: UserId) -> int {
        choose|i: int| 0 <= i < self.users.len() && (#[trigger] self.users[i]).id == id
    }

    /// The user registered under this private identifier (meaningful only
    /// when `has_user` holds).
    pub open spec fn user_for(self, id: UserId) -> UserModel {
        self.users[self.user_index(id)]
    }

    /// The public projection of a message: its sender resolved to the
    /// registered name, or the fixed fallback for an unknown sender.
    pub open spec fn resolve(self, m: MsgModel) -> MsgViewModel {
        MsgViewModel {
            sender: if self.has_user(m.sender) {
                self.user_for(m.sender).name
            } else {
                "Unknown"@
            },
            time: m.time,
            text: m.text,
        }
    }

    /// The total number of stored messages, over all POIs.
    pub open spec fn total_msgs(self) -> int {
        total_msgs_of(self.buckets)
    }
}

/// Sum of the thread lengths of a sequence of buckets.
pub open spec fn total_msgs_of(bs: Seq<BucketModel>) -> int
    decreases bs.len(),
{
    if bs.len() == 0 {
        0
    } else {
        bs[0].msgs.len() + total_msgs_of(bs.drop_first())
    }
}

/// The models of a sequence of messages, in order.
pub open spec fn msgs_model(v: Seq<Message>) -> Seq<MsgModel> {
    v.map(|i: int, m: Message| m.model())
}

/// The models of a sequence of buckets, in order.
pub(crate) open spec fn buckets_model(v: Seq<Bucket>) -> Seq<BucketModel> {
    v.map(|i: int, b: Bucket| b.model())
}

/// The models of a sequence of registry slots, in order.
pub(crate) open spec fn users_model(v: Seq<UserPrivate>) -> Seq<UserModel> {
    v.map(|i: int, u: UserPrivate| u.model())
}

impl Storage {
    /// The model of this store's contents.
    pub open(crate) spec fn model(self) -> StoreModel {
        StoreModel {
            buckets: buckets_model(self.messages@),
            users: users_model(self.private_users@),
        }
    }

    /// The file path this store is bound to.
    pub open(crate) spec fn spec_path(self) -> Seq<char> {
        self.path@
    }

    pub open spec fn wf(self) -> bool {
        self.model().wf()
    }
}

// ---------------------------------------------------------------------------
// Model transitions
// ---------------------------------------------------------------------------

/// The store contents after appending one message: the message goes to the
/// end of its POI's bucket, and a fresh bucket is created for a new POI.
pub open spec fn add_msg_model(pre: StoreModel, m: MsgModel) -> StoreModel {
    if pre.has_poi(m.poi) {
        let i = pre.poi_index(m.poi);
        StoreModel {
            buckets: pre.buckets.update(
                i,
                BucketModel { poi: m.poi, msgs: pre.buckets[i].msgs.push(m) },
            ),
            users: pre.users,
        }
    } else {
        StoreModel {
            buckets: pre.buckets.push(BucketModel { poi: m.poi, msgs: seq![m] }),
            users: pre.users,
        }
    }
}

/// The store contents after upserting a user: a known identifier has only its
/// name overwritten, an unknown one is registered with zero points.
pub open spec fn add_user_model(pre: StoreModel, id: UserId, name: Seq<char>) -> StoreModel {
    if pre.has_user(id) {
        let i = pre.user_index(id);
        StoreModel {
            users: pre.users.update(i, UserModel { id, name, points: pre.users[i].points }),
            buckets: pre.buckets,
        }
    } else {
        StoreModel {
            users: pre.users.push(UserModel { id, name, points: 0 }),
            buckets: pre.buckets,
        }
    }
}

// ---------------------------------------------------------------------------
// Uniqueness of the key lookups
// ---------------------------------------------------------------------------

/// Under `wf`, any bucket holding a POI index is the bucket `poi_index` picks.
pub proof fn lemma_poi_index(m: StoreModel, i: int)
    requires
        m.wf(),
        0 <= i < m.buckets.len(),
    ensures
        m.has_poi(m.buckets[i].poi),
        m.poi_index(m.buckets[i].poi) == i,
        m.msgs_for(m.buckets[i].poi) == m.buckets[i].msgs,
{
    let poi = m.buckets[i].poi;
    assert(m.has_poi(poi));
    let j = m.poi_index(poi);
    if i < j {
        assert(m.buckets[i].poi != m.buckets[j].poi);
    } else if j < i {
        assert(m.buckets[j].poi != m.buckets[i].poi);
    }
}

/// Under `wf`, any registry slot holding an identifier is the one `user_index`
/// picks.
pub proof fn lemma_user_index(m: StoreModel, i: int)
    requires
        m.wf(),
        0 <= i < m.users.len(),
    ensures
        m.has_user(m.users[i].id),
        m.user_index(m.users[i].id) == i,
        m.user_for(m.users[i].id) == m.users[i],
{
    let id = m.users[i].id;
    assert(m.has_user(id));
    let j = m.user_index(id);
    if i < j {
        assert(m.users[i].id != m.users[j].id);
    } else if j < i {
        assert(m.users[j].id != m.users[i].id);
    }
}

/// What appending one message does to the model: the target POI's thread
/// grows by that message at the end, every other thread is untouched, the
/// registry is untouched, and well-formedness is preserved.
pub proof fn lemma_add_msg_model(pre: StoreModel, m: MsgModel)
    requires
        pre.wf(),
    ensures
        ({
            let post = add_msg_model(pre, m);
            &&& post.wf()
            &&& post.msgs_for(m.poi) == pre.msgs_for(m.poi).push(m)
            &&& forall|p: int| p != m.poi ==> post.msgs_for(p) == pre.msgs_for(p)
            &&& post.users == pre.users
        }),
{
    let post = add_msg_model(pre, m);
    if pre.has_poi(m.poi) {
        let i = pre.poi_index(m.poi);
        assert(0 <= i < pre.buckets.len() && pre.buckets[i].poi == m.poi);
        assert(post.wf());
        lemma_poi_index(pre, i);
        lemma_poi_index(post, i);
        assert(post.msgs_for(m.poi) == pre.msgs_for(m.poi).push(m));
        assert forall|p: int| p != m.poi implies post.msgs_for(p) == pre.msgs_for(p) by {
            if pre.has_poi(p) {
                let k = pre.poi_index(p);
                lemma_poi_index(pre, k);
                assert(k != i);
                assert(post.buckets[k] == pre.buckets[k]);
                lemma_poi_index(post, k);
            } else {
                assert(!post.has_poi(p));
            }
        }
    } else {
        let n = pre.buckets.len() as int;
        assert forall|i: int, j: int|
            0 <= i < j < post.buckets.len() implies (#[trigger] post.buckets[i]).poi != (
        #[trigger] post.buckets[j]).poi by {
            if j < n {
                assert(pre.buckets[i].poi != pre.buckets[j].poi);
            } else {
                assert(post.buckets[i] == pre.buckets[i]);
            }
        }
        assert(post.wf());
        assert(post.buckets[n].poi == m.poi);
        lemma_poi_index(post, n);
        assert(post.buckets[n].msgs =~= Seq::empty().push(m));
        assert(post.msgs_for(m.poi) == pre.msgs_for(m.poi).push(m));
        assert forall|p: int| p != m.poi implies post.msgs_for(p) == pre.msgs_for(p) by {
            if pre.has_poi(p) {
                let k = pre.poi_index(p);
                lemma_poi_index(pre, k);
                assert(post.buckets[k] == pre.buckets[k]);
                lemma_poi_index(post, k);
            } else {
                assert(!post.has_poi(p));
            }
        }
    }
}

/// What upserting a user does to the model: the identifier ends registered
/// under the given name, its points are zero for a fresh registration and
/// untouched for a known one, every other user is untouched, the threads are
/// untouched, and well-formedness is preserved.
pub proof fn lemma_add_user_model(pre: StoreModel, id: UserId, name: Seq<char>)
    requires
        pre.wf(),
    ensures
        ({
            let post = add_user_model(pre, id, name);
            &&& post.wf()
            &&& post.has_user(id)
            &&& post.user_for(id).id == id
            &&& post.user_for(id).name == name
            &&& post.user_for(id).points == if pre.has_user(id) {
                pre.user_for(id).points
            } else {
                0int
            }
            &&& forall|u: UserId|
                u != id ==> (#[trigger] post.has_user(u)) == pre.has_user(u)
            &&& forall|u: UserId|
                u != id && pre.has_user(u) ==> (#[trigger] post.user_for(u)) == pre.user_for(u)
            &&& post.buckets == pre.buckets
        }),
{
    let post = add_user_model(pre, id, name);
    if pre.has_user(id) {
        let i = pre.user_index(id);
        assert(0 <= i < pre.users.len() && pre.users[i].id == id);
        assert(post.wf());
        lemma_user_index(pre, i);
        lemma_user_index(post, i);
        assert forall|u: UserId| u != id && pre.has_user(u) implies (#[trigger] post.user_for(u))
            == pre.user_for(u) by {
            let k = pre.user_index(u);
            lemma_user_index(pre, k);
            assert(k != i);
            assert(post.users[k] == pre.users[k]);
            lemma_user_index(post, k);
        }
        assert forall|u: UserId| u != id implies (#[trigger] post.has_user(u)) == pre.has_user(
            u,
        ) by {
            if pre.has_user(u) {
                let k = pre.user_index(u);
                lemma_user_index(pre, k);
                assert(post.users[k] == pre.users[k]);
                lemma_user_index(post, k);
            } else {
                assert(!post.has_user(u));
            }
        }
    } else {
        let n = pre.users.len() as int;
        assert forall|i: int, j: int|
            0 <= i < j < post.users.len() implies (#[trigger] post.users[i]).id != (
        #[trigger] post.users[j]).id by {
            if j < n {
                assert(pre.users[i].id != pre.users[j].id);
            } else {
                assert(post.users[i] == pre.users[i]);
            }
        }
        assert(post.wf());
        lemma_user_index(post, n);
        assert forall|u: UserId| u != id && pre.has_user(u) implies (#[trigger] post.user_for(u))
            == pre.user_for(u) by {
            let k = pre.user_index(u);
            lemma_user_index(pre, k);
            assert(post.users[k] == pre.users[k]);
            lemma_user_index(post, k);
        }
        assert forall|u: UserId| u != id implies (#[trigger] post.has_user(u)) == pre.has_user(
            u,
        ) by {
            if pre.has_user(u) {
                let k = pre.user_index(u);
                lemma_user_index(pre, k);
                assert(post.users[k] == pre.users[k]);
                lemma_user_index(post, k);
            } else {
                assert(!post.has_user(u));
            }
        }
    }
}

// ---------------------------------------------------------------------------
// Laws
// ---------------------------------------------------------------------------

/// Folding a sequence of message additions into the store, first one first.
pub open spec fn add_msgs_model(pre: StoreModel, msgs: Seq<MsgModel>) -> StoreModel
    decreases msgs.len(),
{
    if msgs.len() == 0 {
        pre
    } else {
        add_msgs_model(add_msg_model(pre, msgs[0]), msgs.drop_first())
    }
}

/// Append-only, order-preserving threads: any sequence of message additions
/// to one POI leaves that POI's thread as the original thread followed by the
/// added messages in submission order, and every other thread untouched.
pub proof fn lemma_messages_in_submission_order(pre: StoreModel, msgs: Seq<MsgModel>, poi: int)
    requires
        pre.wf(),
        forall|k: int| 0 <= k < msgs.len() ==> (#[trigger] msgs[k]).poi == poi,
    ensures
        add_msgs_model(pre, msgs).wf(),
        add_msgs_model(pre, msgs).msgs_for(poi) == pre.msgs_for(poi) + msgs,
        forall|p: int| p != poi ==> add_msgs_model(pre, msgs).msgs_for(p) == pre.msgs_for(p),
    decreases msgs.len(),
{
    if msgs.len() == 0 {
        assert(pre.msgs_for(poi) + msgs =~= pre.msgs_for(poi));
    } else {
        let mid = add_msg_model(pre, msgs[0]);
        lemma_add_msg_model(pre, msgs[0]);
        let rest = msgs.drop_first();
        assert forall|k: int| 0 <= k < rest.len() implies (#[trigger] rest[k]).poi == poi by {
            assert(rest[k] == msgs[k + 1]);
        }
        lemma_messages_in_submission_order(mid, rest, poi);
        assert(pre.msgs_for(poi).push(msgs[0]) + rest =~= pre.msgs_for(poi) + msgs);
    }
}

/// Re-registering a user only overwrites the name: after storing `id` under
/// `n1` and then under `n2`, the stored name is `n2` and the points are
/// unchanged from before either call (zero if the user was unknown).
pub proof fn lemma_add_user_overwrites_name_only(
    pre: StoreModel,
    id: UserId,
    n1: Seq<char>,
    n2: Seq<char>,
)
    requires
        pre.wf(),
    ensures
        ({
            let post = add_user_model(add_user_model(pre, id, n1), id, n2);
            &&& post.wf()
            &&& post.has_user(id)
            &&& post.user_for(id).name == n2
            &&& post.user_for(id).points == if pre.has_user(id) {
                pre.user_for(id).points
            } else {
                0int
            }
            &&& post.buckets == pre.buckets
        }),
{
    lemma_add_user_model(pre, id, n1);
    lemma_add_user_model(add_user_model(pre, id, n1), id, n2);
}

// ---------------------------------------------------------------------------
// Operations
// ---------------------------------------------------------------------------

/// Relies on flarch's `tasks::now`: the current wall-clock time in
/// milliseconds since the epoch. Nothing is assumed of the value.
#[verifier::external_body]
fn now_millis() -> i64 {
    flarch::tasks::now()
}

/// A field-by-field copy of a message.
fn copy_message(m: &Message) -> (r: Message)
    ensures
        r.sender == m.sender,
        r.poi == m.poi,
        r.time == m.time,
        r.message@ == m.message@,
        r.model() == m.model(),
{
    Message { sender: m.sender, poi: m.poi, time: m.time, message: m.message.clone() }
}

impl UserPrivate {
    /// The public identifier derived from this user's private identifier.
    pub fn public(&self) -> (r: UserId)
        ensures
            r == spec_public_id(self.model().id),
    {
        hash_user_domain(&self.id_private)
    }
}

impl Storage {
    /// A fresh, empty store bound to the given file path.
    pub fn new(path: String) -> (s: Storage)
        ensures
            s.wf(),
            s.model() == StoreModel::empty(),
            s.spec_path() == path@,
    {
        let s = Storage { messages: Vec::new(), private_users: Vec::new(), path };
        proof {
            assert(s.model() =~~= StoreModel::empty());
        }
        s
    }

    /// The file path this store is bound to.
    pub fn path(&self) -> (p: &String)
        ensures
            p@ == self.spec_path(),
    {
        &self.path
    }

    /// The index of the bucket keyed by this POI index, if there is one.
    fn find_bucket(&self, poi: usize) -> (r: Option<usize>)
        ensures
            match r {
                Some(i) => i < self.messages@.len() && self.model().buckets[i as int].poi
                    == poi as int,
                None => !self.model().has_poi(poi as int),
            },
    {
        let n = self.messages.len();
        let mut i: usize = 0;
        while i < n
            invariant
                n == self.messages@.len(),
                i <= n,
                forall|k: int| 0 <= k < i ==> (#[trigger] self.messages@[k]).poi != poi,
            decreases n - i,
        {
            if self.messages[i].poi == poi {
                return Some(i);
            }
            i += 1;
        }
        proof {
            assert forall|k: int| 0 <= k < self.model().buckets.len() implies (
            #[trigger] self.model().buckets[k]).poi != poi as int by {
                assert(self.messages@[k].poi != poi);
            }
        }
        None
    }

    /// The index of the registry slot of this private identifier, if any.
    fn find_user(&self, id: UserId) -> (r: Option<usize>)
        ensures
            match r {
                Some(i) => i < self.private_users@.len() && self.model().users[i as int].id == id,
                None => !self.model().has_user(id),
            },
    {
        let n = self.private_users.len();
        let mut i: usize = 0;
        while i < n
            invariant
                n == self.private_users@.len(),
                i <= n,
                forall|k: int| 0 <= k < i ==> (#[trigger] self.private_users@[k]).id_private != id,
            decreases n - i,
        {
            if self.private_users[i].id_private == id {
                return Some(i);
            }
            i += 1;
        }
        proof {
            assert forall|k: int| 0 <= k < self.model().users.len() implies (
            #[trigger] self.model().users[k]).id != id by {
                assert(self.private_users@[k].id_private != id);
            }
        }
        None
    }

    /// Appends a message for this sender and POI, stamped with the current
    /// wall-clock time, creating the POI's bucket if it does not exist yet.
    /// Returns the stored message. Never rejects its input.
    pub fn add_message(&mut self, user: UserId, poi: usize, message: String) -> (m: Message)
        requires
            old(self).wf(),
        ensures
            final(self).wf(),
            m.sender == user,
            m.poi == poi,
            m.message@ == message@,
            final(self).model() == add_msg_model(old(self).model(), m.model()),
            final(self).spec_path() == old(self).spec_path(),
    {
        let time = now_millis();
        let msg = Message { sender: user, poi, time, message };
        let ghost pre = self.model();
        proof {
            lemma_add_msg_model(pre, msg.model());
        }
        match self.find_bucket(poi) {
            Some(i) => {
                proof {
                    assert(pre.has_poi(poi as int));
                    lemma_poi_index(pre, i as int);
                }
                let mut b = self.messages.remove(i);
                b.msgs.push(copy_message(&msg));
                self.messages.insert(i, b);
                proof {
                    let target = add_msg_model(pre, msg.model());
                    assert(self.model().buckets =~~= target.buckets);
                    assert(self.model().users =~~= target.users);
                    assert(self.model() =~~= target);
                }
            },
            None => {
                let mut msgs = Vec::new();
                msgs.push(copy_message(&msg));
                self.messages.push(Bucket { poi, msgs });
                proof {
                    let target = add_msg_model(pre, msg.model());
                    assert(self.model().buckets =~~= target.buckets);
                    assert(self.model().users =~~= target.users);
                    assert(self.model() =~~= target);
                }
            },
        }
        msg
    }

    /// Upserts a user: a known identifier has only its name overwritten; an
    /// unknown one is registered under the name with zero points.
    pub fn add_user(&mut self, id: UserId, name: String)
        requires
            old(self).wf(),
        ensures
            final(self).wf(),
            final(self).model() == add_user_model(old(self).model(), id, name@),
            final(self).spec_path() == old(self).spec_path(),
    {
        let ghost pre = self.model();
        proof {
            lemma_add_user_model(pre, id, name@);
        }
        match self.find_user(id) {
            Some(i) => {
                proof {
                    assert(pre.has_user(id));
                    lemma_user_index(pre, i as int);
                }
                let u = self.private_users.remove(i);
                self.private_users.insert(
                    i,
                    UserPrivate { name, points: u.points, id_private: u.id_private },
                );
                proof {
                    let target = add_user_model(pre, id, name@);
                    assert(self.model().buckets =~~= target.buckets);
                    assert(self.model().users =~~= target.users);
                    assert(self.model() =~~= target);
                }
            },
            None => {
                self.private_users.push(UserPrivate { name, points: 0, id_private: id });
                proof {
                    let target = add_user_model(pre, id, name@);
                    assert(self.model().buckets =~~= target.buckets);
                    assert(self.model().users =~~= target.users);
                    assert(self.model() =~~= target);
                }
            },
        }
    }

    /// The registered name of this identifier, or the fixed fallback.
    fn resolve_sender(&self, sender: UserId) -> (r: String)
        requires
            self.wf(),
        ensures
            r@ == if self.model().has_user(sender) {
                self.model().user_for(sender).name
            } else {
                "Unknown"@
            },
    {
        match self.find_user(sender) {
            Some(i) => {
                proof {
                    lemma_user_index(self.model(), i as int);
                }
                self.private_users[i].name.clone()
            },
            None => "Unknown".to_owned(),
        }
    }

    /// Every registered user, projected through the identity derivation.
    /// The order of the result is the registration order and carries no
    /// meaning to callers.
    pub fn users(&self) -> (r: Vec<User>)
        ensures
            r@.len() == self.model().users.len(),
            forall|i: int|
                0 <= i < r@.len() ==> (#[trigger] r@[i]).model() == pub_user_model(
                    self.model().users[i],
                ),
    {
        let mut r: Vec<User> = Vec::new();
        let n = self.private_users.len();
        let mut i: usize = 0;
        while i < n
            invariant
                n == self.private_users@.len(),
                i <= n,
                r@.len() == i,
                forall|k: int|
                    0 <= k < i ==> (#[trigger] r@[k]).model() == pub_user_model(
                        self.model().users[k],
                    ),
            decreases n - i,
        {
            let u = &self.private_users[i];
            r.push(User { name: u.name.clone(), points: u.points, id_public: u.public() });
            i += 1;
        }
        r
    }

    /// The public view of one POI's thread, in insertion order. An unknown
    /// POI yields the empty sequence; it is never an error.
    pub fn get_messages(&self, poi: usize) -> (r: Vec<MessageString>)
        requires
            self.wf(),
        ensures
            r@.len() == self.model().msgs_for(poi as int).len(),
            forall|i: int|
                0 <= i < r@.len() ==> (#[trigger] r@[i]).model() == self.model().resolve(
                    self.model().msgs_for(poi as int)[i],
                ),
            !self.model().has_poi(poi as int) ==> r@.len() == 0,
    {
        let mut r: Vec<MessageString> = Vec::new();
        match self.find_bucket(poi) {
            None => {},
            Some(bi) => {
                proof {
                    lemma_poi_index(self.model(), bi as int);
                }
                let n = self.messages[bi].msgs.len();
                let mut j: usize = 0;
                while j < n
                    invariant
                        self.wf(),
                        bi < self.messages@.len(),
                        self.model().buckets[bi as int].poi == poi as int,
                        self.model().msgs_for(poi as int) == self.model().buckets[
                            bi as int
                        ].msgs,
                        n == self.messages@[bi as int].msgs@.len(),
                        j <= n,
                        r@.len() == j,
                        forall|k: int|
                            0 <= k < j ==> (#[trigger] r@[k]).model() == self.model().resolve(
                                self.model().msgs_for(poi as int)[k],
                            ),
                    decreases n - j,
                {
                    let m = &self.messages[bi].msgs[j];
                    let sender = self.resolve_sender(m.sender);
                    r.push(MessageString { sender, time: m.time, message: m.message.clone() });
                    proof {
                        lemma_stored_msg_model(self, bi, j);
                    }
                    j += 1;
                }
            },
        }
        r
    }
}

/// The public projection of one registered user.
pub open spec fn pub_user_model(u: UserModel) -> PubUserModel {
    PubUserModel { id_public: spec_public_id(u.id), name: u.name, points: u.points }
}

// ---------------------------------------------------------------------------
// Statistics
// ---------------------------------------------------------------------------

/// Aggregate statistics over the whole store: how many users and messages it
/// holds, and the most recently timestamped message with its POI index (ties
/// between equal timestamps are broken arbitrarily).
pub struct Stats {
    pub total_users: usize,
    pub total_messages: usize,
    pub last: Option<(MessageString, usize)>,
}

/// An integer clamped to the `usize` range from above.
pub open spec fn sat_usize(n: int) -> int {
    if n > usize::MAX as int {
        usize::MAX as int
    } else {
        n
    }
}

impl StoreModel {
    /// Whether the message at bucket `i`, slot `j` exists and no stored
    /// message has a later timestamp.
    pub open spec fn is_latest(self, i: int, j: int) -> bool {
        &&& 0 <= i < self.buckets.len()
        &&& 0 <= j < self.buckets[i].msgs.len()
        &&& forall|a: int, b: int|
            0 <= a < self.buckets.len() && 0 <= b < self.buckets[a].msgs.len() ==> (
            #[trigger] self.buckets[a].msgs[b]).time <= self.buckets[i].msgs[j].time
    }
}

/// The total message count of a bucket sequence is never negative.
pub proof fn lemma_total_msgs_nonneg(bs: Seq<BucketModel>)
    ensures
        total_msgs_of(bs) >= 0,
    decreases bs.len(),
{
    if bs.len() > 0 {
        lemma_total_msgs_nonneg(bs.drop_first());
    }
}

/// Appending a bucket adds its thread length to the total message count.
pub proof fn lemma_total_msgs_push(bs: Seq<BucketModel>, b: BucketModel)
    ensures
        total_msgs_of(bs.push(b)) == total_msgs_of(bs) + b.msgs.len(),
    decreases bs.len(),
{
    assert(total_msgs_of(bs.push(b)) == bs.push(b)[0].msgs.len() + total_msgs_of(
        bs.push(b).drop_first(),
    ));
    if bs.len() == 0 {
        assert(bs.push(b)[0] == b);
        assert(bs.push(b).drop_first() =~= Seq::<BucketModel>::empty());
        assert(total_msgs_of(Seq::<BucketModel>::empty()) == 0);
    } else {
        assert(bs.push(b)[0] == bs[0]);
        assert(bs.push(b).drop_first() =~= bs.drop_first().push(b));
        lemma_total_msgs_push(bs.drop_first(), b);
    }
}

/// The total message count is zero exactly when every thread is empty.
pub proof fn lemma_total_msgs_zero(bs: Seq<BucketModel>)
    ensures
        (total_msgs_of(bs) == 0) <==> (forall|i: int|
            0 <= i < bs.len() ==> (#[trigger] bs[i]).msgs.len() == 0),
    decreases bs.len(),
{
    if bs.len() > 0 {
        lemma_total_msgs_zero(bs.drop_first());
        lemma_total_msgs_nonneg(bs.drop_first());
        if total_msgs_of(bs) == 0 {
            assert forall|i: int| 0 <= i < bs.len() implies (#[trigger] bs[i]).msgs.len()
                == 0 by {
                if i > 0 {
                    assert(bs.drop_first()[i - 1] == bs[i]);
                }
            }
        } else {
            if bs[0].msgs.len() == 0 {
                let i = choose|i: int|
                    0 <= i < bs.drop_first().len() && (#[trigger] bs.drop_first()[i]).msgs.len()
                        != 0;
                assert(bs[i + 1].msgs.len() != 0);
            }
        }
    }
}

impl Storage {
    /// Aggregate statistics: the user count, the (saturating) message count
    /// over all POIs, and the latest message resolved to its public view,
    /// with the POI index it was posted at.
    pub fn stats(&self) -> (r: Stats)
        requires
            self.wf(),
        ensures
            r.total_users == self.model().users.len(),
            r.total_messages as int == sat_usize(self.model().total_msgs()),
            r.last is None <==> self.model().total_msgs() == 0,
            (r.last matches Some(p) ==> exists|i: int, j: int|
                {
                    &&& #[trigger] self.model().is_latest(i, j)
                    &&& self.model().buckets[i].poi == p.1 as int
                    &&& p.0.model() == self.model().resolve(self.model().buckets[i].msgs[j])
                }),
    {
        let total_users = self.private_users.len();
        let ghost bs = self.model().buckets;
        let mut total: usize = 0;
        let mut best: Option<(usize, usize)> = None;
        let nb = self.messages.len();
        let mut i: usize = 0;
        proof {
            assert(bs.take(0) =~= Seq::<BucketModel>::empty());
        }
        while i < nb
            invariant
                self.wf(),
                bs == self.model().buckets,
                nb == self.messages@.len(),
                i <= nb,
                total as int == sat_usize(total_msgs_of(bs.take(i as int))),
                match best {
                    Some(pos) => {
                        &&& pos.0 < i
                        &&& pos.1 < bs[pos.0 as int].msgs.len()
                        &&& forall|a: int, b: int|
                            0 <= a < i && 0 <= b < bs[a].msgs.len() ==> (
                            #[trigger] bs[a].msgs[b]).time <= bs[pos.0 as int].msgs[
                                pos.1 as int
                            ].time
                    },
                    None => forall|a: int|
                        0 <= a < i ==> (#[trigger] bs[a]).msgs.len() == 0,
                },
            decreases nb - i,
        {
            let len = self.messages[i].msgs.len();
            proof {
                assert(bs.take(i + 1) =~= bs.take(i as int).push(bs[i as int]));
                lemma_total_msgs_push(bs.take(i as int), bs[i as int]);
                lemma_total_msgs_nonneg(bs.take(i as int));
            }
            if len > usize::MAX - total {
                total = usize::MAX;
            } else {
                total = total + len;
            }
            let mut j: usize = 0;
            while j < len
                invariant
                    self.wf(),
                    bs == self.model().buckets,
                    nb == self.messages@.len(),
                    i < nb,
                    len == bs[i as int].msgs.len(),
                    j <= len,
                    match best {
                        Some(pos) => {
                            &&& (pos.0 < i || (pos.0 == i && pos.1 < j))
                            &&& pos.0 < nb
                            &&& pos.1 < bs[pos.0 as int].msgs.len()
                            &&& forall|a: int, b: int|
                                0 <= a < i && 0 <= b < bs[a].msgs.len() ==> (
                                #[trigger] bs[a].msgs[b]).time <= bs[pos.0 as int].msgs[
                                    pos.1 as int
                                ].time
                            &&& forall|b: int|
                                0 <= b < j ==> (#[trigger] bs[i as int].msgs[b]).time <= bs[
                                    pos.0 as int
                                ].msgs[pos.1 as int].time
                        },
                        None => j == 0 && forall|a: int|
                            0 <= a < i ==> (#[trigger] bs[a]).msgs.len() == 0,
                    },
                decreases len - j,
            {
                let t = self.messages[i].msgs[j].time;
                proof {
                    lemma_stored_msg_model(self, i, j);
                }
                let take = match best {
                    None => true,
                    Some(pos) => {
                        let bt = self.messages[pos.0].msgs[pos.1].time;
                        proof {
                            lemma_stored_msg_model(self, pos.0, pos.1);
                        }
                        t >= bt
                    },
                };
                if take {
                    best = Some((i, j));
                }
                j += 1;
            }
            i += 1;
        }
        proof {
            assert(bs.take(nb as int) =~= bs);
        }
        let last = match best {
            None => {
                proof {
                    lemma_total_msgs_zero(bs);
                }
                None
            },
            Some(pos) => {
                let m = &self.messages[pos.0].msgs[pos.1];
                proof {
                    lemma_stored_msg_model(self, pos.0, pos.1);
                    lemma_total_msgs_zero(bs);
                }
                let sender = self.resolve_sender(m.sender);
                let view = MessageString { sender, time: m.time, message: m.message.clone() };
                let poi_v = self.messages[pos.0].poi;
                proof {
                    let gi = pos.0 as int;
                    let gj = pos.1 as int;
                    assert(self.model().is_latest(gi, gj));
                    assert(view.model() == self.model().resolve(self.model().buckets[gi].msgs[gj]));
                    assert(self.model().buckets[gi].poi == poi_v as int);
                }
                Some((view, poi_v))
            },
        };
        Stats { total_users, total_messages: total, last }
    }
}

/// Connects one stored message to its model inside the store's model.
proof fn lemma_stored_msg_model(s: &Storage, bi: usize, j: usize)
    requires
        bi < s.messages@.len(),
        j < s.messages@[bi as int].msgs@.len(),
    ensures
        s.model().buckets[bi as int].msgs[j as int] == s.messages@[bi as int].msgs@[
            j as int
        ].model(),
{
}

} // verus!
