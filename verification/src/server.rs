//! The session store, the lobby registry and the game lifecycle rules.
//!
//! Player handles are opaque 128-bit values (UUID-sized); the transport
//! layer converts its identifiers to and from them. Both stores are
//! association lists with unique keys, so every lookup and every transition
//! is stated over plain sequences.

use vstd::prelude::*;
use vstd::pervasive::unreached;
use crate::guess::WordGuess;
use crate::player::PlayerState;
use crate::player::fresh_player;
use crate::player::has_won_spec;

verus! {

/// One session store entry: an opaque player handle and the session it owns.
pub struct SessionEntry {
    pub id: u128,
    pub state: PlayerState,
}

/// One lobby: lifecycle flags, the fixed secret word, and the ordered member
/// list.
pub struct LobbyState {
    pub started: bool,
    pub ended: bool,
    pub chosen_word: String,
    pub players: Vec<u128>,
}

/// One lobby registry entry: the lobby's string key and its state.
pub struct LobbyEntry {
    pub id: String,
    pub state: LobbyState,
}

/// The game engine: the session store and the lobby registry.
pub struct Server {
    connections: Vec<SessionEntry>,
    lobbies: Vec<LobbyEntry>,
}

/// Whether some session entry carries the handle `id`.
pub open spec fn has_player(s: Seq<SessionEntry>, id: u128) -> bool {
    exists|i: int| 0 <= i < s.len() && s[i].id == id
}

/// The index of the session entry carrying `id` (unique under
/// `distinct_player_keys`).
pub open spec fn player_index(s: Seq<SessionEntry>, id: u128) -> int {
    choose|i: int| 0 <= i < s.len() && s[i].id == id
}

/// The session owned by the handle `id`.
pub open spec fn player_at(s: Seq<SessionEntry>, id: u128) -> PlayerState {
    s[player_index(s, id)].state
}

/// No two session entries carry the same handle.
pub open spec fn distinct_player_keys(s: Seq<SessionEntry>) -> bool {
    forall|i: int, j: int| 0 <= i < j < s.len() ==> s[i].id != s[j].id
}

/// Whether some lobby entry carries the key `id`.
pub open spec fn has_lobby_key(s: Seq<LobbyEntry>, id: Seq<char>) -> bool {
    exists|i: int| 0 <= i < s.len() && s[i].id@ == id
}

/// The index of the lobby entry carrying `id` (unique under
/// `distinct_lobby_keys`).
pub open spec fn lobby_index(s: Seq<LobbyEntry>, id: Seq<char>) -> int {
    choose|i: int| 0 <= i < s.len() && s[i].id@ == id
}

/// The lobby stored under the key `id`.
pub open spec fn lobby_at(s: Seq<LobbyEntry>, id: Seq<char>) -> LobbyState {
    s[lobby_index(s, id)].state
}

/// No two lobby entries carry the same key.
pub open spec fn distinct_lobby_keys(s: Seq<LobbyEntry>) -> bool {
    forall|i: int, j: int| 0 <= i < j < s.len() ==> s[i].id@ != s[j].id@
}

/// The matching index is the chosen one: under distinct keys, finding any
/// entry with the handle pins `player_index` to it.
pub proof fn lemma_player_index_is(s: Seq<SessionEntry>, id: u128, i: int)
    requires
        distinct_player_keys(s),
        0 <= i < s.len(),
        s[i].id == id,
    ensures
        has_player(s, id),
        player_index(s, id) == i,
{
    assert(has_player(s, id));
    let j = player_index(s, id);
    assert(0 <= j < s.len() && s[j].id == id);
    if i < j {
        assert(s[i].id != s[j].id);
    } else if j < i {
        assert(s[j].id != s[i].id);
    }
}

/// The matching index is the chosen one: under distinct keys, finding any
/// entry with the key pins `lobby_index` to it.
pub proof fn lemma_lobby_index_is(s: Seq<LobbyEntry>, id: Seq<char>, i: int)
    requires
        distinct_lobby_keys(s),
        0 <= i < s.len(),
        s[i].id@ == id,
    ensures
        has_lobby_key(s, id),
        lobby_index(s, id) == i,
{
    assert(has_lobby_key(s, id));
    let j = lobby_index(s, id);
    assert(0 <= j < s.len() && s[j].id@ == id);
    if i < j {
        assert(s[i].id@ != s[j].id@);
    } else if j < i {
        assert(s[j].id@ != s[i].id@);
    }
}

/// Whether an optional lobby reference names exactly the key `key`.
pub open spec fn lobby_ref_is(r: Option<String>, key: Seq<char>) -> bool {
    match r {
        Some(l) => l@ == key,
        None => false,
    }
}

/// How one session entry changes when the lobby under `key` is torn down:
/// the handle, name, ownership flag and guess history stay, and the lobby
/// reference is cleared exactly when it named `key`.
pub open spec fn session_cleared(o: SessionEntry, n: SessionEntry, key: Seq<char>) -> bool {
    &&& n.id == o.id
    &&& n.state.name == o.state.name
    &&& n.state.is_owner == o.state.is_owner
    &&& n.state.word_guesses == o.state.word_guesses
    &&& n.state.lobby == (if lobby_ref_is(o.state.lobby, key) {
        Option::<String>::None
    } else {
        o.state.lobby
    })
}

/// Pointwise `session_cleared` over a whole session store.
pub open spec fn sessions_cleared(a: Seq<SessionEntry>, b: Seq<SessionEntry>, key: Seq<char>) -> bool {
    &&& b.len() == a.len()
    &&& forall|i: int| 0 <= i < a.len() ==> session_cleared(a[i], #[trigger] b[i], key)
}

/// The first handle in `members`, in list order, whose session has won;
/// ties between members go to the earlier list position.
pub open spec fn first_winner(conns: Seq<SessionEntry>, members: Seq<u128>) -> Option<u128>
    decreases members.len(),
{
    if members.len() == 0 {
        None
    } else if has_won_spec(player_at(conns, members[0])) {
        Some(members[0])
    } else {
        first_winner(conns, members.drop_first())
    }
}

/// A found first winner is a member whose session has won.
pub proof fn lemma_first_winner_some(conns: Seq<SessionEntry>, members: Seq<u128>, w: u128)
    requires
        first_winner(conns, members) == Some(w),
    ensures
        members.contains(w),
        has_won_spec(player_at(conns, w)),
    decreases members.len(),
{
    if members.len() == 0 {
    } else if has_won_spec(player_at(conns, members[0])) {
        assert(members[0] == w);
    } else {
        lemma_first_winner_some(conns, members.drop_first(), w);
        let k = choose|k: int| 0 <= k < members.drop_first().len() && members.drop_first()[k] == w;
        assert(members[k + 1] == w);
    }
}

/// Two stores of equal length carrying the same handles in the same order
/// know the same players.
pub proof fn lemma_same_handles_same_players(a: Seq<SessionEntry>, b: Seq<SessionEntry>)
    requires
        b.len() == a.len(),
        forall|i: int| 0 <= i < a.len() ==> a[i].id == #[trigger] b[i].id,
    ensures
        forall|id: u128| has_player(a, id) <==> has_player(b, id),
{
    assert forall|id: u128| has_player(a, id) implies has_player(b, id) by {
        let w = player_index(a, id);
        assert(b[w].id == id);
    }
    assert forall|id: u128| has_player(b, id) implies has_player(a, id) by {
        let w = player_index(b, id);
        assert(a[w].id == id);
    }
}

/// Why a submitted guess was not accepted.
#[derive(Debug, PartialEq, Eq, Clone, Copy, Structural)]
pub enum SubmitError {
    /// The handle is unknown, unaffiliated, or its lobby no longer exists.
    NotInLobby,
    /// The guess and the lobby's secret word differ in length.
    LengthMismatch,
}

/// How the session store changes when entry `pi` records one more guess:
/// every other entry is untouched, and entry `pi` keeps everything but its
/// history, which grows by one guess holding the word `w` and the colors
/// `colors`.
pub open spec fn sessions_after_guess(
    a: Seq<SessionEntry>,
    b: Seq<SessionEntry>,
    pi: int,
    w: Seq<char>,
    colors: Seq<crate::guess::CharColor>,
) -> bool {
    &&& 0 <= pi < a.len()
    &&& b.len() == a.len()
    &&& forall|i: int| 0 <= i < a.len() && i != pi ==> a[i] == #[trigger] b[i]
    &&& b[pi].id == a[pi].id
    &&& b[pi].state.name == a[pi].state.name
    &&& b[pi].state.is_owner == a[pi].state.is_owner
    &&& b[pi].state.lobby == a[pi].state.lobby
    &&& b[pi].state.word_guesses@.len() == a[pi].state.word_guesses@.len() + 1
    &&& forall|k: int|
        0 <= k < a[pi].state.word_guesses@.len() ==> a[pi].state.word_guesses@[k] == #[trigger] b[pi].state.word_guesses@[k]
    &&& b[pi].state.word_guesses@.last().word@ == w
    &&& b[pi].state.word_guesses@.last().char_states@ == colors
}

/// What one accepted guess by `player` does, told through the session store
/// `mid` as it stands right after the guess was recorded: the history of the
/// submitting player grew by the evaluated guess; then the first winning
/// member of the player's lobby, if any, had the game ended (lobby removed,
/// every affiliated reference cleared) and the outcome names the winner,
/// else nothing further changed and the outcome names nobody.
pub open spec fn submit_accepted(
    o: Server,
    f: Server,
    r: Result<Option<String>, SubmitError>,
    player: u128,
    guess: Seq<char>,
    mid: Seq<SessionEntry>,
) -> bool {
    let key = o.spec_lobby_key_of(player);
    let secret = lobby_at(o.lobby_entries(), key).chosen_word@;
    let pi = player_index(o.sessions(), player);
    let colors = crate::guess::evaluate_spec(secret, guess);
    &&& sessions_after_guess(o.sessions(), mid, pi, guess, colors)
    &&& match first_winner(mid, lobby_at(o.lobby_entries(), key).players@) {
        Some(w) => {
            &&& (r matches Ok(out) && out matches Some(name) && name == player_at(mid, w).name)
            &&& f.lobby_entries() == o.lobby_entries().remove(lobby_index(o.lobby_entries(), key))
            &&& sessions_cleared(mid, f.sessions(), key)
        },
        None => {
            &&& r == Result::<Option<String>, SubmitError>::Ok(None)
            &&& f.sessions() == mid
            &&& f.lobby_entries() == o.lobby_entries()
        },
    }
}

/// Whether `v` holds the handle `x`.
fn members_contain(v: &Vec<u128>, x: u128) -> (r: bool)
    ensures
        r == v@.contains(x),
{
    let n = v.len();
    let mut i: usize = 0;
    while i < n
        invariant
            n == v@.len(),
            i <= n,
            forall|j: int| 0 <= j < i ==> v@[j] != x,
        decreases n - i,
    {
        if v[i] == x {
            proof {
                assert(v@[i as int] == x);
            }
            return true;
        }
        i = i + 1;
    }
    false
}

impl Server {
    /// The session store's entries, in insertion order.
    pub closed spec fn sessions(self) -> Seq<SessionEntry> {
        self.connections@
    }

    /// The lobby registry's entries, in insertion order.
    pub closed spec fn lobby_entries(self) -> Seq<LobbyEntry> {
        self.lobbies@
    }

    /// Well-formedness: handles and lobby keys are unique, every listed
    /// lobby member is a known session, and every recorded guess carries one
    /// color per character.
    pub open spec fn wf(self) -> bool {
        &&& distinct_player_keys(self.sessions())
        &&& distinct_lobby_keys(self.lobby_entries())
        &&& forall|l: int, j: int|
            0 <= l < self.lobby_entries().len() && 0 <= j
                < self.lobby_entries()[l].state.players@.len() ==> has_player(
                self.sessions(),
                #[trigger] self.lobby_entries()[l].state.players@[j],
            )
        &&& forall|i: int, k: int|
            0 <= i < self.sessions().len() && 0 <= k
                < self.sessions()[i].state.word_guesses@.len() ==> (
            #[trigger] self.sessions()[i].state.word_guesses@[k]).wf()
    }

    /// An empty engine: no sessions, no lobbies.
    pub fn new() -> (r: Self)
        ensures
            r.sessions() == Seq::<SessionEntry>::empty(),
            r.lobby_entries() == Seq::<LobbyEntry>::empty(),
            r.wf(),
    {
        Server { connections: Vec::new(), lobbies: Vec::new() }
    }

    /// The index of the session entry carrying `id`, if any.
    fn find_player(&self, id: u128) -> (r: Option<usize>)
        ensures
            match r {
                Some(i) => i < self.sessions().len() && self.sessions()[i as int].id == id,
                None => !has_player(self.sessions(), id),
            },
    {
        let n = self.connections.len();
        let mut i: usize = 0;
        while i < n
            invariant
                n == self.connections@.len(),
                i <= n,
                forall|j: int| 0 <= j < i ==> self.connections@[j].id != id,
            decreases n - i,
        {
            if self.connections[i].id == id {
                return Some(i);
            }
            i = i + 1;
        }
        None
    }

    /// The index of the lobby entry carrying the key `name`, if any.
    fn find_lobby(&self, name: &String) -> (r: Option<usize>)
        ensures
            match r {
                Some(i) => i < self.lobby_entries().len() && self.lobby_entries()[i as int].id@
                    == name@,
                None => !has_lobby_key(self.lobby_entries(), name@),
            },
    {
        let n = self.lobbies.len();
        let mut i: usize = 0;
        while i < n
            invariant
                n == self.lobbies@.len(),
                i <= n,
                forall|j: int| 0 <= j < i ==> self.lobbies@[j].id@ != name@,
            decreases n - i,
        {
            if self.lobbies[i].id == *name {
                return Some(i);
            }
            i = i + 1;
        }
        None
    }

    /// Existence check for a player handle.
    pub fn is_player_valid(&self, id: u128) -> (r: bool)
        ensures
            r == has_player(self.sessions(), id),
    {
        match self.find_player(id) {
            Some(i) => {
                proof {
                    assert(has_player(self.sessions(), id));
                }
                true
            },
            None => false,
        }
    }

    /// Existence check for a lobby key.
    pub fn does_lobby_exist(&self, s: &String) -> (r: bool)
        ensures
            r == has_lobby_key(self.lobby_entries(), s@),
    {
        match self.find_lobby(s) {
            Some(i) => {
                proof {
                    assert(has_lobby_key(self.lobby_entries(), s@));
                }
                true
            },
            None => false,
        }
    }

    /// Install a fresh session under `id`. An already-known handle has its
    /// record overwritten with a fresh one: the store itself does not
    /// deduplicate, callers check existence first.
    pub fn init_player(&mut self, id: u128)
        requires
            old(self).wf(),
        ensures
            final(self).wf(),
            has_player(final(self).sessions(), id),
            fresh_player(player_at(final(self).sessions(), id)),
            final(self).lobby_entries() == old(self).lobby_entries(),
            final(self).sessions().len() >= old(self).sessions().len(),
            forall|i: int|
                0 <= i < old(self).sessions().len() && old(self).sessions()[i].id != id
                    ==> final(self).sessions()[i] == old(self).sessions()[i],
            forall|pid: u128|
                has_player(final(self).sessions(), pid) <==> (has_player(old(self).sessions(), pid)
                    || pid == id),
    {
        let fresh = SessionEntry { id, state: PlayerState::default() };
        match self.find_player(id) {
            Some(i) => {
                proof {
                    lemma_player_index_is(self.sessions(), id, i as int);
                }
                self.connections[i] = fresh;
                proof {
                    lemma_player_index_is(self.sessions(), id, i as int);
                    assert(forall|pid: u128|
                        has_player(old(self).sessions(), pid) ==> has_player(
                            self.sessions(),
                            pid,
                        )) by {
                        assert forall|pid: u128|
                            has_player(old(self).sessions(), pid) implies has_player(
                            self.sessions(),
                            pid,
                        ) by {
                            let w = player_index(old(self).sessions(), pid);
                            assert(self.sessions()[w].id == pid);
                        }
                    }
                }
            },
            None => {
                self.connections.push(fresh);
                proof {
                    let n = old(self).sessions().len() as int;
                    assert(self.sessions()[n].id == id);
                    lemma_player_index_is(self.sessions(), id, n);
                    assert(forall|pid: u128|
                        has_player(old(self).sessions(), pid) ==> has_player(
                            self.sessions(),
                            pid,
                        )) by {
                        assert forall|pid: u128|
                            has_player(old(self).sessions(), pid) implies has_player(
                            self.sessions(),
                            pid,
                        ) by {
                            let w = player_index(old(self).sessions(), pid);
                            assert(self.sessions()[w].id == pid);
                        }
                    }
                }
            },
        }
    }
    /// The session owned by `id`. Callers validate existence first.
    pub fn get_player(&self, id: u128) -> (r: &PlayerState)
        requires
            distinct_player_keys(self.sessions()),
            has_player(self.sessions(), id),
        ensures
            *r == player_at(self.sessions(), id),
    {
        match self.find_player(id) {
            Some(i) => {
                proof {
                    lemma_player_index_is(self.sessions(), id, i as int);
                }
                &self.connections[i].state
            },
            None => unreached(),
        }
    }

    /// Mutable access to the session owned by `id`. Callers validate
    /// existence first; the store afterwards holds, under `id`, whatever the
    /// caller leaves behind the returned reference, and every other entry
    /// unchanged.
    pub fn get_player_mut(&mut self, id: u128) -> (r: &mut PlayerState)
        requires
            distinct_player_keys(old(self).sessions()),
            has_player(old(self).sessions(), id),
        ensures
            *r == player_at(old(self).sessions(), id),
            final(self).sessions() == old(self).sessions().update(
                player_index(old(self).sessions(), id),
                (SessionEntry { id, state: *final(r) }),
            ),
            final(self).lobby_entries() == old(self).lobby_entries(),
    {
        match self.find_player(id) {
            Some(i) => {
                proof {
                    lemma_player_index_is(old(self).sessions(), id, i as int);
                }
                &mut self.connections[i].state
            },
            None => unreached(),
        }
    }

    /// Whether the session under `id` points at a lobby that still exists.
    pub open spec fn spec_has_lobby(self, id: u128) -> bool {
        match player_at(self.sessions(), id).lobby {
            Some(l) => has_lobby_key(self.lobby_entries(), l@),
            None => false,
        }
    }

    /// Whether `id` is a known session affiliated with an existing lobby.
    pub open spec fn spec_in_lobby(self, id: u128) -> bool {
        has_player(self.sessions(), id) && self.spec_has_lobby(id)
    }

    /// The key of the lobby the session under `id` points at.
    pub open spec fn spec_lobby_key_of(self, id: u128) -> Seq<char> {
        match player_at(self.sessions(), id).lobby {
            Some(l) => l@,
            None => Seq::<char>::empty(),
        }
    }

    /// True iff the player's lobby reference names a lobby that still
    /// exists; a stale or absent reference reports false. Callers validate
    /// the handle first.
    pub fn has_lobby(&self, id: u128) -> (r: bool)
        requires
            distinct_player_keys(self.sessions()),
            has_player(self.sessions(), id),
        ensures
            r == self.spec_has_lobby(id),
    {
        let p = self.get_player(id);
        match &p.lobby {
            Some(l) => self.does_lobby_exist(l),
            None => false,
        }
    }

    /// Install a lobby under `lobby_name` with the supplied secret word; an
    /// existing lobby under the same key is silently overwritten. The word
    /// itself comes from the caller: word selection stays outside the
    /// engine.
    pub fn create_lobby(&mut self, lobby_name: String, chosen_word: String)
        requires
            old(self).wf(),
        ensures
            final(self).wf(),
            final(self).sessions() == old(self).sessions(),
            has_lobby_key(final(self).lobby_entries(), lobby_name@),
            ({
                let e = final(self).lobby_entries()[lobby_index(
                    final(self).lobby_entries(),
                    lobby_name@,
                )];
                &&& e.id == lobby_name
                &&& !e.state.started
                &&& !e.state.ended
                &&& e.state.chosen_word == chosen_word
                &&& e.state.players@ == Seq::<u128>::empty()
            }),
            forall|k: Seq<char>|
                has_lobby_key(final(self).lobby_entries(), k) <==> (has_lobby_key(
                    old(self).lobby_entries(),
                    k,
                ) || k == lobby_name@),
            forall|i: int|
                0 <= i < old(self).lobby_entries().len() && old(self).lobby_entries()[i].id@
                    != lobby_name@ ==> final(self).lobby_entries()[i] == old(
                    self,
                ).lobby_entries()[i],
            final(self).lobby_entries().len() >= old(self).lobby_entries().len(),
    {
        let fresh = LobbyEntry {
            id: lobby_name,
            state: LobbyState {
                started: false,
                ended: false,
                chosen_word,
                players: Vec::new(),
            },
        };
        match self.find_lobby(&fresh.id) {
            Some(i) => {
                proof {
                    lemma_lobby_index_is(self.lobby_entries(), fresh.id@, i as int);
                }
                self.lobbies[i] = fresh;
                proof {
                    lemma_lobby_index_is(
                        self.lobby_entries(),
                        old(self).lobby_entries()[i as int].id@,
                        i as int,
                    );
                    assert forall|k: Seq<char>|
                        has_lobby_key(old(self).lobby_entries(), k) implies has_lobby_key(
                        self.lobby_entries(),
                        k,
                    ) by {
                        let w = lobby_index(old(self).lobby_entries(), k);
                        assert(self.lobby_entries()[w].id@ == k);
                    }
                }
            },
            None => {
                let ghost n = self.lobbies@.len() as int;
                self.lobbies.push(fresh);
                proof {
                    lemma_lobby_index_is(self.lobby_entries(), self.lobby_entries()[n].id@, n);
                    assert forall|k: Seq<char>|
                        has_lobby_key(old(self).lobby_entries(), k) implies has_lobby_key(
                        self.lobby_entries(),
                        k,
                    ) by {
                        let w = lobby_index(old(self).lobby_entries(), k);
                        assert(self.lobby_entries()[w].id@ == k);
                    }
                }
            },
        }
    }

    /// Attach a known player to an existing lobby: the session's lobby
    /// reference is set and the player joins the lobby's member list (at
    /// most once). On an unknown player or lobby nothing changes and the
    /// call reports failure. A player already affiliated elsewhere is
    /// silently reassigned; the old lobby's member list keeps the handle
    /// until that game ends.
    pub fn join_lobby(&mut self, player: u128, lobby_name: &String) -> (r: bool)
        requires
            old(self).wf(),
        ensures
            final(self).wf(),
            r == (has_player(old(self).sessions(), player) && has_lobby_key(
                old(self).lobby_entries(),
                lobby_name@,
            )),
            !r ==> final(self).sessions() == old(self).sessions() && final(self).lobby_entries()
                == old(self).lobby_entries(),
            r ==> ({
                let pi = player_index(old(self).sessions(), player);
                let li = lobby_index(old(self).lobby_entries(), lobby_name@);
                let po = old(self).sessions()[pi];
                let pn = final(self).sessions()[pi];
                let lo = old(self).lobby_entries()[li];
                let ln = final(self).lobby_entries()[li];
                &&& final(self).sessions().len() == old(self).sessions().len()
                &&& forall|i: int|
                    0 <= i < old(self).sessions().len() && i != pi ==> final(self).sessions()[i]
                        == old(self).sessions()[i]
                &&& pn.id == player
                &&& pn.state.name == po.state.name
                &&& pn.state.is_owner == po.state.is_owner
                &&& pn.state.word_guesses == po.state.word_guesses
                &&& lobby_ref_is(pn.state.lobby, lobby_name@)
                &&& final(self).lobby_entries().len() == old(self).lobby_entries().len()
                &&& forall|j: int|
                    0 <= j < old(self).lobby_entries().len() && j != li
                        ==> final(self).lobby_entries()[j] == old(self).lobby_entries()[j]
                &&& ln.id == lo.id
                &&& ln.state.started == lo.state.started
                &&& ln.state.ended == lo.state.ended
                &&& ln.state.chosen_word == lo.state.chosen_word
                &&& ln.state.players@ == (if lo.state.players@.contains(player) {
                    lo.state.players@
                } else {
                    lo.state.players@.push(player)
                })
            }),
    {
        let pi = match self.find_player(player) {
            Some(i) => i,
            None => {
                return false;
            },
        };
        let li = match self.find_lobby(lobby_name) {
            Some(i) => i,
            None => {
                return false;
            },
        };
        proof {
            lemma_player_index_is(old(self).sessions(), player, pi as int);
            lemma_lobby_index_is(old(self).lobby_entries(), lobby_name@, li as int);
        }
        self.connections[pi].state.lobby = Some(lobby_name.clone());
        let already = members_contain(&self.lobbies[li].state.players, player);
        if !already {
            self.lobbies[li].state.players.push(player);
        }
        proof {
            lemma_same_handles_same_players(old(self).sessions(), self.sessions());
        }
        true
    }
    /// The first member of the lobby under `lobby`, in member-list order,
    /// whose session has won. Callers validate lobby existence first.
    pub fn any_winners(&self, lobby: &String) -> (r: Option<u128>)
        requires
            self.wf(),
            has_lobby_key(self.lobby_entries(), lobby@),
        ensures
            r == first_winner(self.sessions(), lobby_at(self.lobby_entries(), lobby@).players@),
    {
        let li = match self.find_lobby(lobby) {
            Some(i) => i,
            None => unreached(),
        };
        proof {
            lemma_lobby_index_is(self.lobby_entries(), lobby@, li as int);
        }
        let ghost mseq = self.lobbies@[li as int].state.players@;
        let n = self.lobbies[li].state.players.len();
        let mut k: usize = 0;
        proof {
            assert(mseq.skip(0) =~= mseq);
        }
        while k < n
            invariant
                self.wf(),
                li < self.lobbies@.len(),
                mseq == self.lobbies@[li as int].state.players@,
                has_lobby_key(self.lobby_entries(), lobby@),
                lobby_at(self.lobby_entries(), lobby@).players@ == mseq,
                n == mseq.len(),
                k <= n,
                first_winner(self.sessions(), mseq) == first_winner(
                    self.sessions(),
                    mseq.skip(k as int),
                ),
            decreases n - k,
        {
            let m = self.lobbies[li].state.players[k];
            proof {
                assert(self.lobby_entries()[li as int].state.players@[k as int] == m);
                assert(has_player(self.sessions(), m));
                assert(mseq.skip(k as int)[0] == mseq[k as int]);
            }
            let p = self.get_player(m);
            if p.has_won() {
                proof {
                    assert(first_winner(self.sessions(), mseq.skip(k as int)) == Some(m));
                }
                return Some(m);
            }
            proof {
                assert(mseq.skip(k as int).drop_first() =~= mseq.skip(k as int + 1));
                assert(first_winner(self.sessions(), mseq.skip(k as int)) == first_winner(
                    self.sessions(),
                    mseq.skip(k as int + 1),
                ));
            }
            k = k + 1;
        }
        proof {
            assert(mseq.skip(n as int) =~= Seq::<u128>::empty());
            assert(first_winner(self.sessions(), mseq.skip(n as int)) is None);
        }
        None
    }

    /// Tear down the lobby stored under `lobby`: clear the lobby reference
    /// of every session affiliated with it, then drop the registry entry.
    /// Callers validate lobby existence first.
    pub fn end_game(&mut self, lobby: &String)
        requires
            old(self).wf(),
            has_lobby_key(old(self).lobby_entries(), lobby@),
        ensures
            final(self).wf(),
            final(self).lobby_entries() == old(self).lobby_entries().remove(
                lobby_index(old(self).lobby_entries(), lobby@),
            ),
            sessions_cleared(old(self).sessions(), final(self).sessions(), lobby@),
    {
        let li = match self.find_lobby(lobby) {
            Some(i) => i,
            None => unreached(),
        };
        proof {
            lemma_lobby_index_is(old(self).lobby_entries(), lobby@, li as int);
        }
        let n = self.connections.len();
        let mut i: usize = 0;
        while i < n
            invariant
                n == self.sessions().len(),
                old(self).sessions().len() == n,
                i <= n,
                self.lobbies@ == old(self).lobbies@,
                forall|j: int|
                    0 <= j < i ==> session_cleared(
                        old(self).sessions()[j],
                        #[trigger] self.sessions()[j],
                        lobby@,
                    ),
                forall|j: int| i <= j < n ==> self.sessions()[j] == old(self).sessions()[j],
            decreases n - i,
        {
            let clear = match &self.connections[i].state.lobby {
                Some(l) => l.eq(lobby),
                None => false,
            };
            if clear {
                self.connections[i].state.lobby = None;
            }
            i = i + 1;
        }
        let ghost pre_remove = self.lobbies@;
        self.lobbies.remove(li);
        proof {
            pre_remove.remove_ensures(li as int);
            assert(self.lobbies@ =~= pre_remove.remove(li as int));
            lemma_same_handles_same_players(old(self).sessions(), self.sessions());
            assert forall|x: int, y: int|
                0 <= x < y < self.lobbies@.len() implies self.lobbies@[x].id@
                != self.lobbies@[y].id@ by {
                let ox: int = if x < li as int {
                    x
                } else {
                    x + 1
                };
                let oy: int = if y < li as int {
                    y
                } else {
                    y + 1
                };
                assert(self.lobbies@[x] == old(self).lobbies@[ox]);
                assert(self.lobbies@[y] == old(self).lobbies@[oy]);
            }
            assert forall|l: int, j: int|
                0 <= l < self.lobby_entries().len() && 0 <= j
                    < self.lobby_entries()[l].state.players@.len() implies has_player(
                self.sessions(),
                self.lobby_entries()[l].state.players@[j],
            ) by {
                let ol: int = if l < li as int {
                    l
                } else {
                    l + 1
                };
                assert(self.lobbies@[l] == old(self).lobbies@[ol]);
                assert(has_player(
                    old(self).sessions(),
                    old(self).lobby_entries()[ol].state.players@[j],
                ));
            }
            assert forall|x: int, k: int|
                0 <= x < self.sessions().len() && 0 <= k
                    < self.sessions()[x].state.word_guesses@.len() implies (
            #[trigger] self.sessions()[x].state.word_guesses@[k]).wf() by {
                assert(session_cleared(old(self).sessions()[x], self.sessions()[x], lobby@));
                assert(old(self).sessions()[x].state.word_guesses@[k].wf());
            }
        }
    }

    /// Run one inbound guess for `player`: evaluate it against the player's
    /// lobby's secret word, append the outcome to the player's history, then
    /// scan the lobby's member list for a winner. On a winner the lobby is
    /// torn down and the winner's display name is reported; otherwise the
    /// game goes on. An unaffiliated or unknown handle and a guess of the
    /// wrong length are reported as errors and change nothing.
    pub fn player_submit_move(&mut self, player: u128, guess: String) -> (r: Result<
        Option<String>,
        SubmitError,
    >)
        requires
            old(self).wf(),
        ensures
            final(self).wf(),
            (r matches Err(e) && e == SubmitError::NotInLobby) <==> !old(self).spec_in_lobby(
                player,
            ),
            !old(self).spec_in_lobby(player) ==> final(self).sessions() == old(self).sessions()
                && final(self).lobby_entries() == old(self).lobby_entries(),
            old(self).spec_in_lobby(player) ==> ({
                let key = old(self).spec_lobby_key_of(player);
                let secret = lobby_at(old(self).lobby_entries(), key).chosen_word@;
                let pi = player_index(old(self).sessions(), player);
                let colors = crate::guess::evaluate_spec(secret, guess@);
                &&& ((r matches Err(e) && e == SubmitError::LengthMismatch) <==> guess@.len()
                    != secret.len())
                &&& (guess@.len() != secret.len() ==> final(self).sessions()
                    == old(self).sessions() && final(self).lobby_entries()
                    == old(self).lobby_entries())
                &&& (guess@.len() == secret.len() ==> exists|mid: Seq<SessionEntry>|
                    submit_accepted(*old(self), *final(self), r, player, guess@, mid))
            }),
    {
        let pi = match self.find_player(player) {
            Some(i) => i,
            None => {
                return Err(SubmitError::NotInLobby);
            },
        };
        proof {
            lemma_player_index_is(old(self).sessions(), player, pi as int);
        }
        let key = match &self.connections[pi].state.lobby {
            Some(l) => l.clone(),
            None => {
                return Err(SubmitError::NotInLobby);
            },
        };
        let li = match self.find_lobby(&key) {
            Some(i) => i,
            None => {
                return Err(SubmitError::NotInLobby);
            },
        };
        proof {
            lemma_lobby_index_is(old(self).lobby_entries(), key@, li as int);
            assert(old(self).spec_in_lobby(player));
            assert(old(self).spec_lobby_key_of(player) == key@);
        }
        let ghost gseq = guess@;
        let glen = guess.as_str().unicode_len();
        let slen = self.lobbies[li].state.chosen_word.as_str().unicode_len();
        if glen != slen {
            return Err(SubmitError::LengthMismatch);
        }
        let colors = crate::guess::evaluate(
            self.lobbies[li].state.chosen_word.as_str(),
            guess.as_str(),
        );
        let wg = WordGuess { word: guess, char_states: colors };
        self.connections[pi].state.word_guesses.push(wg);
        let ghost mid = self.sessions();
        proof {
            assert(sessions_after_guess(
                old(self).sessions(),
                mid,
                pi as int,
                wg.word@,
                crate::guess::evaluate_spec(
                    old(self).lobby_entries()[li as int].state.chosen_word@,
                    wg.word@,
                ),
            ));
            lemma_same_handles_same_players(old(self).sessions(), self.sessions());
            assert forall|l: int, j: int|
                0 <= l < self.lobby_entries().len() && 0 <= j
                    < self.lobby_entries()[l].state.players@.len() implies has_player(
                self.sessions(),
                self.lobby_entries()[l].state.players@[j],
            ) by {
                assert(has_player(
                    old(self).sessions(),
                    old(self).lobby_entries()[l].state.players@[j],
                ));
            }
            assert forall|x: int, k: int|
                0 <= x < self.sessions().len() && 0 <= k
                    < self.sessions()[x].state.word_guesses@.len() implies (
            #[trigger] self.sessions()[x].state.word_guesses@[k]).wf() by {
                if x != pi as int || k < old(self).sessions()[x].state.word_guesses@.len() {
                    assert(old(self).sessions()[x].state.word_guesses@[k].wf());
                }
            }
        }
        let winner = self.any_winners(&key);
        match winner {
            Some(w) => {
                proof {
                    lemma_first_winner_some(
                        mid,
                        lobby_at(self.lobby_entries(), key@).players@,
                        w,
                    );
                    let wi = choose|t: int|
                        0 <= t < lobby_at(self.lobby_entries(), key@).players@.len() && lobby_at(
                            self.lobby_entries(),
                            key@,
                        ).players@[t] == w;
                    assert(self.lobby_entries()[lobby_index(self.lobby_entries(), key@)].state.players@[wi] == w);
                    assert(has_player(self.sessions(), w));
                }
                let name = self.get_player(w).name.clone();
                self.end_game(&key);
                let res: Result<Option<String>, SubmitError> = Ok(Some(name));
                proof {
                    assert(submit_accepted(*old(self), *self, res, player, gseq, mid));
                }
                res
            },
            None => {
                let res: Result<Option<String>, SubmitError> = Ok(None);
                proof {
                    assert(submit_accepted(*old(self), *self, res, player, gseq, mid));
                }
                res
            },
        }
    }
}

impl Default for Server {
    /// An empty engine, as `Server::new` builds it.
    fn default() -> (r: Self)
        ensures
            r.sessions() == Seq::<SessionEntry>::empty(),
            r.lobby_entries() == Seq::<LobbyEntry>::empty(),
            r.wf(),
    {
        Server::new()
    }
}

} // verus!
