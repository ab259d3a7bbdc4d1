//! The life of an agent, and what is stored of it.

use vstd::prelude::*;
use vstd::string::*;
use vstd::utf8::*;

use crate::database::catalog::{ColumnDef, OuterUpdate};
use crate::database::engine;
use crate::database::engine::{Database, DbError, KeyValue};
use crate::database::rows;
use crate::database::rows::{decode_column, decode_i64, encode_cells};
use crate::database::versions;
use crate::strmap::StrMap;
use crate::text;
use crate::text::{same_text, signed_text, text_strict};

verus! {

/// The table in which agents are stored.
pub const AGENTS_TABLE: &'static str = "_synapse_agents";

/// The name under which an agent leaves its checkpoint in its memory.
pub const CHECKPOINT: &'static str = "__checkpoint";

/// What an agent is up to.
#[derive(Debug, Clone, Copy, PartialEq, Eq, Structural)]
pub enum AgentStatus {
    Running,
    Paused,
    Terminated,
}

impl AgentStatus {
    pub open spec fn text(self) -> Seq<char> {
        match self {
            AgentStatus::Running => "running"@,
            AgentStatus::Paused => "paused"@,
            AgentStatus::Terminated => "terminated"@,
        }
    }

    /// The name under which a status is stored.
    pub fn as_str(self) -> (s: &'static str)
        ensures
            s@ == self.text(),
    {
        match self {
            AgentStatus::Running => "running",
            AgentStatus::Paused => "paused",
            AgentStatus::Terminated => "terminated",
        }
    }
}

/// The memory of an agent.
pub struct AgentState {
    pub short_term: StrMap<String>,
}

/// What reaches an agent.
#[derive(Debug, Clone, PartialEq)]
pub enum AgentMessage {
    Deliver(String),
    Pause,
    Resume,
    Checkpoint,
    Terminate,
}

/// What is done with a message.
#[derive(Debug, Clone, PartialEq)]
pub enum Reaction {
    /// Let the agent work on the payload, and answer with what it returns.
    Step(String),
    /// Answer.
    Reply(String),
    /// Nothing.
    Nothing,
    /// Stop; no further message is read.
    Stop,
}

/// An agent that reads its mailbox.
pub struct Agent {
    pub state: AgentState,
    pub status: AgentStatus,
    pub last_checkpoint: String,
}

impl Agent {
    pub open spec fn doing(&self) -> AgentStatus {
        self.status
    }

    pub open spec fn saved(&self) -> Seq<char> {
        self.last_checkpoint@
    }

    /// The checkpoint that the agent left in its memory last.
    pub open spec fn checkpoint(&self) -> Seq<char> {
        if self.state.short_term@.contains_key(CHECKPOINT@) {
            self.state.short_term@[CHECKPOINT@]@
        } else {
            self.saved()
        }
    }

    /// Whether this is a running agent that did nothing yet, with nothing but
    /// a checkpoint in its memory, if that is not empty.
    pub open spec fn begins_with(&self, checkpoint: Seq<char>) -> bool {
        &&& self.state.short_term.wf()
        &&& self.doing() == AgentStatus::Running
        &&& self.saved().len() == 0
        &&& if checkpoint.len() == 0 {
            self.state.short_term@ == Map::<Seq<char>, String>::empty()
        } else {
            &&& self.state.short_term@.dom() == set![CHECKPOINT@]
            &&& self.state.short_term@[CHECKPOINT@]@ == checkpoint
        }
    }

    /// A new agent. A checkpoint of an earlier life is put into its memory.
    pub fn start(checkpoint: &str) -> (a: Agent)
        ensures
            a.begins_with(checkpoint@),
    {
        let mut short_term: StrMap<String> = StrMap::new();
        if checkpoint.unicode_len() > 0 {
            short_term.insert(CHECKPOINT.to_owned(), checkpoint.to_owned());
            assert(short_term@.dom() =~= set![CHECKPOINT@]);
        }
        Agent {
            state: AgentState { short_term },
            status: AgentStatus::Running,
            last_checkpoint: String::new(),
        }
    }

    /// Reads a message. While it is paused an agent answers with nothing.
    pub fn on_message(&mut self, msg: AgentMessage) -> (r: Reaction)
        requires
            old(self).state.short_term.wf(),
        ensures
            reacted(*old(self), msg, r, *final(self)),
    {
        match msg {
            AgentMessage::Deliver(payload) => if self.status == AgentStatus::Running {
                Reaction::Step(payload)
            } else {
                Reaction::Reply(String::new())
            },
            AgentMessage::Pause => {
                self.status = AgentStatus::Paused;
                Reaction::Nothing
            },
            AgentMessage::Resume => {
                self.status = AgentStatus::Running;
                Reaction::Nothing
            },
            AgentMessage::Checkpoint => {
                match self.state.short_term.get(CHECKPOINT) {
                    Some(c) => {
                        self.last_checkpoint = c.clone();
                    },
                    None => {},
                }
                Reaction::Reply(self.last_checkpoint.clone())
            },
            AgentMessage::Terminate => {
                self.status = AgentStatus::Terminated;
                Reaction::Stop
            },
        }
    }
}

/// What is stored of an agent.
#[derive(Debug, Clone, PartialEq)]
pub struct AgentRow {
    pub id: String,
    pub name: String,
    pub status: String,
    pub checkpoint: String,
    pub created_at: Option<i64>,
}

/// The cells of the row of an agent.
pub open spec fn cells_of(
    id: Seq<char>,
    name: Seq<char>,
    status: AgentStatus,
    checkpoint: Seq<char>,
    created_at: i64,
    updated_at: i64,
) -> Seq<Option<Seq<u8>>> {
    seq![
        Some(encode_utf8(id)),
        Some(encode_utf8(name)),
        Some(encode_utf8(status.text())),
        Some(encode_utf8(checkpoint)),
        Some(encode_utf8(text::signed(created_at as int))),
        Some(encode_utf8(text::signed(updated_at as int))),
    ]
}

fn text_cell(s: &str) -> (c: Option<Vec<u8>>)
    ensures
        c matches Some(v) && v@ == encode_utf8(s@),
{
    Some(crate::database::rowmap::copy_bytes(s.as_bytes()))
}

/// The row under which an agent is stored.
pub fn agent_row(
    id: &str,
    name: &str,
    status: AgentStatus,
    checkpoint: &str,
    created_at: i64,
    updated_at: i64,
) -> (row: Vec<u8>)
    ensures
        row@ == rows::row_bytes(
            cells_of(id@, name@, status, checkpoint@, created_at, updated_at),
        ),
{
    let mut cells: Vec<Option<Vec<u8>>> = Vec::new();
    cells.push(text_cell(id));
    cells.push(text_cell(name));
    cells.push(text_cell(status.as_str()));
    cells.push(text_cell(checkpoint));
    cells.push(text_cell(signed_text(created_at).as_str()));
    cells.push(text_cell(signed_text(updated_at).as_str()));
    assert(rows::cell_views(cells@) =~= cells_of(
        id@,
        name@,
        status,
        checkpoint@,
        created_at,
        updated_at,
    ));
    encode_cells(&cells)
}

/// The text of a cell; an empty text where there is none.
pub open spec fn cell_text(row: Seq<u8>, idx: nat) -> Seq<char> {
    match rows::column_in(row, idx) {
        Some(c) if valid_utf8(c) => decode_utf8(c),
        _ => Seq::empty(),
    }
}

fn cell_string(row: &[u8], idx: usize) -> (s: String)
    ensures
        s@ == cell_text(row@, idx as nat),
{
    match decode_column(row, idx) {
        Some(c) => match text_strict(c) {
            Some(s) => s,
            None => String::new(),
        },
        None => String::new(),
    }
}

/// The number in a cell.
pub open spec fn cell_number(row: Seq<u8>, idx: nat) -> Option<i64> {
    match rows::column_in(row, idx) {
        Some(c) => rows::i64_in(c),
        None => None,
    }
}

/// Reads the row of an agent.
pub fn read_agent(row: &[u8]) -> (a: AgentRow)
    ensures
        a.id@ == cell_text(row@, 0),
        a.name@ == cell_text(row@, 1),
        a.status@ == cell_text(row@, 2),
        a.checkpoint@ == cell_text(row@, 3),
        a.created_at == cell_number(row@, 4),
{
    let created_at: Option<i64> = match decode_column(row, 4) {
        Some(c) => decode_i64(c.as_slice()),
        None => None,
    };
    AgentRow {
        id: cell_string(row, 0),
        name: cell_string(row, 1),
        status: cell_string(row, 2),
        checkpoint: cell_string(row, 3),
        created_at,
    }
}

/// What is stored of an agent is read back.
pub proof fn law_agent_is_read_back(
    id: Seq<char>,
    name: Seq<char>,
    status: AgentStatus,
    checkpoint: Seq<char>,
    created_at: i64,
    updated_at: i64,
)
    requires
        encode_utf8(id).len() <= i32::MAX,
        encode_utf8(name).len() <= i32::MAX,
        encode_utf8(checkpoint).len() <= i32::MAX,
    ensures
        ({
            let row = rows::row_bytes(
                cells_of(id, name, status, checkpoint, created_at, updated_at),
            );
            &&& cell_text(row, 0) == id
            &&& cell_text(row, 1) == name
            &&& cell_text(row, 2) == status.text()
            &&& cell_text(row, 3) == checkpoint
            &&& cell_number(row, 4) == Some(created_at)
        }),
{
    let cells = cells_of(id, name, status, checkpoint, created_at, updated_at);
    let none = Seq::<u8>::empty();
    reveal_strlit("running");
    reveal_strlit("paused");
    reveal_strlit("terminated");
    is_ascii_chars_encode_utf8(status.text());
    rows::law_number_is_read_back(created_at);
    rows::law_cells_are_read_back(none, cells, 0);
    rows::law_cells_are_read_back(none, cells, 1);
    rows::law_cells_are_read_back(none, cells, 2);
    rows::law_cells_are_read_back(none, cells, 3);
    rows::law_cells_are_read_back(none, cells, 4);
    text::lemma_lossy_of_text(id);
    text::lemma_lossy_of_text(name);
    text::lemma_lossy_of_text(status.text());
    text::lemma_lossy_of_text(checkpoint);
}

/// What can go wrong with an agent.
#[derive(Debug, Clone, PartialEq)]
pub enum AgentError {
    /// There is no row of the agent.
    NotFound(String),
    /// The agent reads no more messages.
    MailboxClosed(String),
    /// The agent went away before it answered.
    NoReply(String),
    /// Its row could not be stored.
    Db(DbError),
}

impl AgentError {
    pub open spec fn text(&self) -> Seq<char> {
        match self {
            AgentError::NotFound(id) => "agent \""@ + id@ + "\" not found"@,
            AgentError::MailboxClosed(id) => "agent \""@ + id@ + "\" mailbox closed"@,
            AgentError::NoReply(id) => "agent \""@ + id@ + "\" dropped without replying"@,
            AgentError::Db(e) => e.text(),
        }
    }

    /// What is wrong, in words.
    pub fn message(&self) -> (m: String)
        ensures
            m@ == self.text(),
    {
        match self {
            AgentError::NotFound(id) => about(id, "\" not found"),
            AgentError::MailboxClosed(id) => about(id, "\" mailbox closed"),
            AgentError::NoReply(id) => about(id, "\" dropped without replying"),
            AgentError::Db(e) => e.message(),
        }
    }
}

fn about(id: &String, tail: &str) -> (m: String)
    ensures
        m@ == "agent \""@ + id@ + tail@,
{
    let mut m = "agent \"".to_owned();
    m.append(id.as_str());
    m.append(tail);
    m
}

/// When an agent was added; an unreadable time counts as now.
pub open spec fn since(row: Seq<u8>, now: i64) -> i64 {
    match cell_number(row, 4) {
        Some(t) => t,
        None => now,
    }
}

/// The row that is stored of an agent.
pub open spec fn row_of(
    id: Seq<char>,
    name: Seq<char>,
    status: AgentStatus,
    checkpoint: Seq<char>,
    created_at: i64,
    now: i64,
) -> Seq<u8> {
    rows::row_bytes(cells_of(id, name, status, checkpoint, created_at, now))
}

/// The row of an agent in a database.
pub open spec fn row_in(db: Database, id: Seq<char>) -> Option<Seq<u8>> {
    versions::value_at(
        db.store@.log,
        rows::composite(AGENTS_TABLE@, encode_utf8(id)),
        u64::MAX,
    )
}

/// The checkpoint that is stored of an agent; an empty text if there is none.
pub open spec fn checkpoint_in(db: Database, id: Seq<char>) -> Seq<char> {
    match row_in(db, id) {
        Some(row) => cell_text(row, 3),
        None => Seq::empty(),
    }
}

/// Whether the row of an agent can be written.
pub open spec fn can_store(db: Database, id: Seq<char>) -> bool {
    &&& db.wf()
    &&& db.store@.next_seq < u64::MAX
    &&& rows::composite(AGENTS_TABLE@, encode_utf8(id)).len() <= u32::MAX
}

/// Whether storing the row of an agent left `after` of `before` and gave `r`.
pub open spec fn stored(
    before: Database,
    id: Seq<char>,
    row: Seq<u8>,
    after: Database,
    r: Result<Vec<OuterUpdate>, DbError>,
) -> bool {
    engine::row_written(before, AGENTS_TABLE@, encode_utf8(id), row, after, r)
}

/// What is read back of an agent's checkpoint is what was stored last.
pub proof fn law_checkpoint_survives(
    before: Database,
    after: Database,
    r: Result<Vec<OuterUpdate>, DbError>,
    id: Seq<char>,
    name: Seq<char>,
    status: AgentStatus,
    checkpoint: Seq<char>,
    created_at: i64,
    now: i64,
)
    requires
        r is Ok,
        stored(before, id, row_of(id, name, status, checkpoint, created_at, now), after, r),
        encode_utf8(id).len() <= i32::MAX,
        encode_utf8(name).len() <= i32::MAX,
        encode_utf8(checkpoint).len() <= i32::MAX,
    ensures
        checkpoint_in(after, id) == checkpoint,
{
    let key = rows::composite(AGENTS_TABLE@, encode_utf8(id));
    let row = row_of(id, name, status, checkpoint, created_at, now);
    let batch = seq![(key, Some(row))];
    versions::law_commit_is_seen_whole(
        before.store@.log,
        batch,
        before.store@.next_seq,
        key,
        u64::MAX,
    );
    assert(batch.last() == (key, Some(row)));
    law_agent_is_read_back(id, name, status, checkpoint, created_at, now);
}

/// The columns of the table of agents.
pub open spec fn agent_columns() -> Seq<Seq<char>> {
    seq!["id"@, "name"@, "status"@, "checkpoint"@, "created_at"@, "updated_at"@]
}

/// An agent as it is listed: id, name, status and checkpoint.
pub type Listed = (Seq<char>, Seq<char>, Seq<char>, Seq<char>);

/// What is listed of the rows of agents.
pub open spec fn listed(rows: Seq<(Seq<u8>, Seq<u8>)>) -> Seq<Listed> {
    rows.map_values(
        |kv: (Seq<u8>, Seq<u8>)|
            (cell_text(kv.1, 0), cell_text(kv.1, 1), cell_text(kv.1, 2), cell_text(kv.1, 3)),
    )
}

pub open spec fn listed_views(list: Seq<(String, String, String, String)>) -> Seq<Listed> {
    list.map_values(|a: (String, String, String, String)| (a.0@, a.1@, a.2@, a.3@))
}

/// The agents that run right now.
pub struct AgentRegistry {
    live: Vec<String>,
}

/// A list without one name.
pub open spec fn without(list: Seq<Seq<char>>, id: Seq<char>) -> Seq<Seq<char>>
    decreases list.len(),
{
    if list.len() == 0 {
        list
    } else if list.last() == id {
        without(list.drop_last(), id)
    } else {
        without(list.drop_last(), id).push(list.last())
    }
}

impl AgentRegistry {
    pub closed spec fn names(&self) -> Seq<Seq<char>> {
        text::texts(self.live@)
    }

    /// Adds the table of agents unless it is there.
    fn ensure_schema(db: &mut Database) -> (r: Result<(), DbError>)
        requires
            old(db).wf(),
        ensures
            final(db).wf(),
            engine::table_ensured(*old(db), AGENTS_TABLE@, agent_columns(), *final(db), r),
    {
        let mut columns: Vec<ColumnDef> = Vec::new();
        columns.push(ColumnDef::named("id"));
        columns.push(ColumnDef::named("name"));
        columns.push(ColumnDef::named("status"));
        columns.push(ColumnDef::named("checkpoint"));
        columns.push(ColumnDef::named("created_at"));
        columns.push(ColumnDef::named("updated_at"));
        assert(crate::database::catalog::column_names(columns@) =~= agent_columns());
        db.ensure_table(AGENTS_TABLE, columns)
    }

    /// A registry over a database, in which no agent runs yet.
    pub fn new(db: &mut Database) -> (r: Result<AgentRegistry, DbError>)
        requires
            old(db).wf(),
        ensures
            final(db).wf(),
            match r {
                Ok(reg) => reg.names().len() == 0 && engine::table_ensured(
                    *old(db),
                    AGENTS_TABLE@,
                    agent_columns(),
                    *final(db),
                    Ok(()),
                ),
                Err(e) => engine::table_ensured(
                    *old(db),
                    AGENTS_TABLE@,
                    agent_columns(),
                    *final(db),
                    Err(e),
                ),
            },
    {
        match Self::ensure_schema(db) {
            Ok(_) => Ok(AgentRegistry { live: Vec::new() }),
            Err(e) => Err(e),
        }
    }

    /// Starts a fresh agent, and stores its row.
    pub fn spawn(&mut self, db: &mut Database, id: &str, name: &str, now: i64) -> (r: Result<
        (Agent, Vec<OuterUpdate>),
        AgentError,
    >)
        requires
            can_store(*old(db), id@),
        ensures
            final(db).wf(),
            ({
                let row = row_of(id@, name@, AgentStatus::Running, Seq::empty(), now, now);
                match r {
                    Ok((agent, us)) => {
                        &&& stored(*old(db), id@, row, *final(db), Ok(us))
                        &&& agent.begins_with(Seq::empty())
                        &&& final(self).names() == without(old(self).names(), id@).push(id@)
                    },
                    Err(e) => {
                        &&& e matches AgentError::Db(x) && stored(
                            *old(db),
                            id@,
                            row,
                            *final(db),
                            Err(x),
                        )
                        &&& final(self).names() == old(self).names()
                    },
                }
            }),
    {
        proof {
            reveal_strlit("");
            assert(""@ =~= Seq::<char>::empty());
        }
        self.run(db, id, name, "", now)
    }

    /// Starts an agent with the checkpoint that is stored of it in its memory,
    /// and stores its row.
    pub fn resume_from_checkpoint(&mut self, db: &mut Database, id: &str, name: &str, now: i64) -> (
    r: Result<(Agent, Vec<OuterUpdate>), AgentError>)
        requires
            can_store(*old(db), id@),
        ensures
            final(db).wf(),
            ({
                let checkpoint = checkpoint_in(*old(db), id@);
                let row = row_of(id@, name@, AgentStatus::Running, checkpoint, now, now);
                match r {
                    Ok((agent, us)) => {
                        &&& stored(*old(db), id@, row, *final(db), Ok(us))
                        &&& agent.begins_with(checkpoint)
                        &&& final(self).names() == without(old(self).names(), id@).push(id@)
                    },
                    Err(e) => {
                        &&& e matches AgentError::Db(x) && stored(
                            *old(db),
                            id@,
                            row,
                            *final(db),
                            Err(x),
                        )
                        &&& final(self).names() == old(self).names()
                    },
                }
            }),
    {
        let checkpoint = match db.read(AGENTS_TABLE, id.as_bytes()) {
            Some(row) => cell_string(row.as_slice(), 3),
            None => String::new(),
        };
        self.run(db, id, name, checkpoint.as_str(), now)
    }

    /// Starts an agent with a checkpoint, stores its row, and notes that it
    /// runs.
    fn run(&mut self, db: &mut Database, id: &str, name: &str, checkpoint: &str, now: i64) -> (r:
        Result<(Agent, Vec<OuterUpdate>), AgentError>)
        requires
            can_store(*old(db), id@),
        ensures
            final(db).wf(),
            ({
                let row = row_of(id@, name@, AgentStatus::Running, checkpoint@, now, now);
                match r {
                    Ok((agent, us)) => {
                        &&& stored(*old(db), id@, row, *final(db), Ok(us))
                        &&& agent.begins_with(checkpoint@)
                        &&& final(self).names() == without(old(self).names(), id@).push(id@)
                    },
                    Err(e) => {
                        &&& e matches AgentError::Db(x) && stored(
                            *old(db),
                            id@,
                            row,
                            *final(db),
                            Err(x),
                        )
                        &&& final(self).names() == old(self).names()
                    },
                }
            }),
    {
        let agent = Agent::start(checkpoint);
        match Self::persist(db, id, name, AgentStatus::Running, checkpoint, now, now) {
            Ok(us) => {
                self.forget(id);
                let ghost before = self.live@;
                self.live.push(id.to_owned());
                assert(self.names() =~= text::texts(before).push(id@));
                Ok((agent, us))
            },
            Err(e) => Err(AgentError::Db(e)),
        }
    }

    /// Stores the row of an agent.
    fn persist(
        db: &mut Database,
        id: &str,
        name: &str,
        status: AgentStatus,
        checkpoint: &str,
        created_at: i64,
        now: i64,
    ) -> (r: Result<Vec<OuterUpdate>, DbError>)
        requires
            can_store(*old(db), id@),
        ensures
            final(db).wf(),
            stored(
                *old(db),
                id@,
                row_of(id@, name@, status, checkpoint@, created_at, now),
                *final(db),
                r,
            ),
    {
        let row = agent_row(id, name, status, checkpoint, created_at, now);
        db.write(AGENTS_TABLE, id.as_bytes(), row.as_slice())
    }

    fn forget(&mut self, id: &str)
        ensures
            final(self).names() == without(old(self).names(), id@),
    {
        let ghost all = self.names();
        let mut kept: Vec<String> = Vec::new();
        let mut i: usize = 0;
        assert(all.take(0) =~= Seq::<Seq<char>>::empty());
        assert(text::texts(kept@) =~= Seq::<Seq<char>>::empty());
        while i < self.live.len()
            invariant
                all == text::texts(self.live@),
                i <= self.live@.len(),
                text::texts(kept@) == without(all.take(i as int), id@),
            decreases self.live@.len() - i,
        {
            proof {
                assert(all.take(i + 1).drop_last() =~= all.take(i as int));
                assert(all.take(i + 1).last() == self.live@[i as int]@);
            }
            let ghost before = kept@;
            if !same_text(self.live[i].as_str(), id) {
                kept.push(self.live[i].clone());
                assert(text::texts(kept@) =~= text::texts(before).push(self.live@[i as int]@));
            }
            i += 1;
        }
        assert(all.take(self.live@.len() as int) =~= all);
        self.live = kept;
    }

    /// Whether an agent runs.
    pub fn get(&self, id: &str) -> (r: bool)
        ensures
            r == self.names().contains(id@),
    {
        let mut i: usize = 0;
        while i < self.live.len()
            invariant
                i <= self.live@.len(),
                forall|k: int| 0 <= k < i ==> self.names()[k] != id@,
            decreases self.live@.len() - i,
        {
            if same_text(self.live[i].as_str(), id) {
                assert(self.names()[i as int] == id@);
                return true;
            }
            i += 1;
        }
        false
    }

    /// The agents that run.
    pub fn list_live(&self) -> (r: Vec<String>)
        ensures
            text::texts(r@) == self.names(),
    {
        let mut r: Vec<String> = Vec::new();
        let mut i: usize = 0;
        while i < self.live.len()
            invariant
                i <= self.live@.len(),
                text::texts(r@) == self.names().take(i as int),
            decreases self.live@.len() - i,
        {
            let ghost before = r@;
            r.push(self.live[i].clone());
            assert(text::texts(r@) =~= text::texts(before).push(self.live@[i as int]@));
            i += 1;
            assert(self.names().take(i as int) =~= self.names().take(i - 1).push(
                self.live@[i - 1]@,
            ));
        }
        assert(self.names().take(self.live@.len() as int) =~= self.names());
        r
    }

    /// The message that an agent that runs gets for a new status; none for one
    /// that does not run.
    pub fn set_status(&self, id: &str, status: AgentStatus) -> (m: Option<AgentMessage>)
        ensures
            m == (if !self.names().contains(id@) {
                None
            } else {
                match status {
                    AgentStatus::Paused => Some(AgentMessage::Pause),
                    AgentStatus::Running => Some(AgentMessage::Resume),
                    AgentStatus::Terminated => Some(AgentMessage::Terminate),
                }
            }),
    {
        if !self.get(id) {
            return None;
        }
        match status {
            AgentStatus::Paused => Some(AgentMessage::Pause),
            AgentStatus::Running => Some(AgentMessage::Resume),
            AgentStatus::Terminated => Some(AgentMessage::Terminate),
        }
    }

    /// Stores the new status of an agent, once it got its message. One that is
    /// terminated runs no more. The rest of its row stays.
    pub fn status_set(&mut self, db: &mut Database, id: &str, status: AgentStatus, now: i64) -> (r:
        Result<Vec<OuterUpdate>, AgentError>)
        requires
            can_store(*old(db), id@),
        ensures
            final(db).wf(),
            final(self).names() == (if status == AgentStatus::Terminated {
                without(old(self).names(), id@)
            } else {
                old(self).names()
            }),
            status_kept(*old(db), id@, status, now, *final(db), r),
    {
        if status == AgentStatus::Terminated {
            self.forget(id);
        }
        match db.read(AGENTS_TABLE, id.as_bytes()) {
            None => Err(AgentError::NotFound(id.to_owned())),
            Some(row) => {
                let a = read_agent(row.as_slice());
                let created: i64 = match a.created_at {
                    Some(t) => t,
                    None => now,
                };
                match Self::persist(
                    db,
                    id,
                    a.name.as_str(),
                    status,
                    a.checkpoint.as_str(),
                    created,
                    now,
                ) {
                    Ok(us) => Ok(us),
                    Err(e) => Err(AgentError::Db(e)),
                }
            },
        }
    }

    /// The checkpoint that is stored of an agent; nothing for one that runs,
    /// which has to be asked.
    pub fn checkpoint(&self, db: &Database, id: &str) -> (r: Result<Option<String>, AgentError>)
        ensures
            if self.names().contains(id@) {
                r matches Ok(None)
            } else {
                match row_in(*db, id@) {
                    Some(row) => r matches Ok(Some(c)) && c@ == cell_text(row, 3),
                    None => r matches Err(AgentError::NotFound(x)) && x@ == id@,
                }
            },
    {
        if self.get(id) {
            return Ok(None);
        }
        match db.read(AGENTS_TABLE, id.as_bytes()) {
            Some(row) => Ok(Some(cell_string(row.as_slice(), 3))),
            None => Err(AgentError::NotFound(id.to_owned())),
        }
    }

    /// Stores the checkpoint that an agent gave when it was asked.
    pub fn checkpoint_given(&self, db: &mut Database, id: &str, checkpoint: &str, now: i64) -> (r:
        Result<Vec<OuterUpdate>, AgentError>)
        requires
            can_store(*old(db), id@),
        ensures
            final(db).wf(),
            checkpoint_kept(*old(db), id@, checkpoint@, now, *final(db), r),
    {
        match db.read(AGENTS_TABLE, id.as_bytes()) {
            None => Err(AgentError::NotFound(id.to_owned())),
            Some(row) => {
                let a = read_agent(row.as_slice());
                let created: i64 = match a.created_at {
                    Some(t) => t,
                    None => now,
                };
                match Self::persist(
                    db,
                    id,
                    a.name.as_str(),
                    AgentStatus::Running,
                    checkpoint,
                    created,
                    now,
                ) {
                    Ok(us) => Ok(us),
                    Err(e) => Err(AgentError::Db(e)),
                }
            },
        }
    }

    /// Id, name, status and checkpoint of every agent that was ever stored.
    pub fn list_all(&self, db: &Database) -> (r: Vec<(String, String, String, String)>)
        ensures
            listed_views(r@) == listed(
                engine::rows_under(
                    versions::rows_at(db.store@.log, u64::MAX),
                    rows::prefix_of(AGENTS_TABLE@),
                ),
            ),
    {
        let found = db.scan(AGENTS_TABLE);
        list_rows(&found)
    }
}

fn list_rows(found: &Vec<KeyValue>) -> (r: Vec<(String, String, String, String)>)
    ensures
        listed_views(r@) == listed(engine::pair_views(found@)),
{
    let ghost all = listed(engine::pair_views(found@));
    let mut r: Vec<(String, String, String, String)> = Vec::new();
    let mut i: usize = 0;
    assert(listed_views(r@) =~= all.take(0));
    while i < found.len()
        invariant
            all == listed(engine::pair_views(found@)),
            i <= found@.len(),
            listed_views(r@) == all.take(i as int),
        decreases found@.len() - i,
    {
        let a = read_agent(found[i].value.as_slice());
        let ghost before = r@;
        r.push((a.id, a.name, a.status, a.checkpoint));
        assert(engine::pair_views(found@)[i as int].1 == found@[i as int].value@);
        assert(listed_views(r@) =~= listed_views(before).push(all[i as int]));
        assert(all.take(i + 1) =~= all.take(i as int).push(all[i as int]));
        i += 1;
    }
    assert(all.take(all.len() as int) =~= all);
    r
}

/// Who leaves the list is on it no more, and every other name stays.
pub proof fn law_only_who_leaves_is_gone(list: Seq<Seq<char>>, id: Seq<char>, x: Seq<char>)
    ensures
        !without(list, id).contains(id),
        x != id ==> (without(list, id).contains(x) <==> list.contains(x)),
        !list.contains(id) ==> without(list, id) == list,
    decreases list.len(),
{
    if list.len() > 0 {
        let head = list.drop_last();
        law_only_who_leaves_is_gone(head, id, x);
        let kept = without(head, id);
        assert(list =~= head.push(list.last()));
        lemma_contains_pushed(head, list.last(), x);
        lemma_contains_pushed(head, list.last(), id);
        if list.last() != id {
            lemma_contains_pushed(kept, list.last(), x);
            lemma_contains_pushed(kept, list.last(), id);
        }
    }
}

proof fn lemma_contains_pushed(a: Seq<Seq<char>>, y: Seq<char>, x: Seq<char>)
    ensures
        a.push(y).contains(x) <==> a.contains(x) || y == x,
{
    if a.contains(x) {
        let k = choose|k: int| 0 <= k < a.len() && a[k] == x;
        assert(a.push(y)[k] == x);
    }
    assert(a.push(y)[a.len() as int] == y);
}

/// A stored agent is listed by its id, its name, its status and its checkpoint, and
/// its row keeps the time at which it was made.
pub proof fn law_stored_agent_is_listed(
    rows: Seq<(Seq<u8>, Seq<u8>)>,
    i: int,
    id: Seq<char>,
    name: Seq<char>,
    status: AgentStatus,
    checkpoint: Seq<char>,
    created_at: i64,
    now: i64,
    later: i64,
)
    requires
        0 <= i < rows.len(),
        rows[i].1 == row_of(id, name, status, checkpoint, created_at, now),
        encode_utf8(id).len() <= i32::MAX,
        encode_utf8(name).len() <= i32::MAX,
        encode_utf8(checkpoint).len() <= i32::MAX,
    ensures
        listed(rows).len() == rows.len(),
        listed(rows)[i] == (id, name, status.text(), checkpoint),
        since(rows[i].1, later) == created_at,
{
    law_agent_is_read_back(id, name, status, checkpoint, created_at, now);
}

/// What an agent does on a message, and what it is then.
pub open spec fn reacted(before: Agent, msg: AgentMessage, r: Reaction, after: Agent) -> bool {
    &&& after.state == before.state
    &&& match msg {
        AgentMessage::Deliver(payload) => {
            &&& after.doing() == before.doing()
            &&& after.saved() == before.saved()
            &&& if before.doing() == AgentStatus::Running {
                r == Reaction::Step(payload)
            } else {
                r matches Reaction::Reply(s) && s@.len() == 0
            }
        },
        AgentMessage::Pause => {
            &&& r is Nothing
            &&& after.doing() == AgentStatus::Paused
            &&& after.saved() == before.saved()
        },
        AgentMessage::Resume => {
            &&& r is Nothing
            &&& after.doing() == AgentStatus::Running
            &&& after.saved() == before.saved()
        },
        AgentMessage::Checkpoint => {
            &&& (r matches Reaction::Reply(s) && s@ == before.checkpoint())
            &&& after.doing() == before.doing()
            &&& after.saved() == before.checkpoint()
        },
        AgentMessage::Terminate => {
            &&& r is Stop
            &&& after.doing() == AgentStatus::Terminated
            &&& after.saved() == before.saved()
        },
    }
}

/// What setting a status leaves: the row of the agent with the new status, under
/// the name and with the checkpoint and the time of making that it had.
pub open spec fn status_kept(
    before: Database,
    id: Seq<char>,
    status: AgentStatus,
    now: i64,
    after: Database,
    r: Result<Vec<OuterUpdate>, AgentError>,
) -> bool {
    match row_in(before, id) {
        None => (r matches Err(AgentError::NotFound(x)) && x@ == id) && after == before,
        Some(row) => {
            let new_row = row_of(
                id,
                cell_text(row, 1),
                status,
                cell_text(row, 3),
                since(row, now),
                now,
            );
            match r {
                Ok(us) => stored(before, id, new_row, after, Ok(us)),
                Err(e) => e matches AgentError::Db(x) && stored(
                    before,
                    id,
                    new_row,
                    after,
                    Err(x),
                ),
            }
        },
    }
}

/// What keeping a checkpoint leaves: the row of the agent with the checkpoint, under
/// the name and with the time of making that it had.
pub open spec fn checkpoint_kept(
    before: Database,
    id: Seq<char>,
    checkpoint: Seq<char>,
    now: i64,
    after: Database,
    r: Result<Vec<OuterUpdate>, AgentError>,
) -> bool {
    match row_in(before, id) {
        None => (r matches Err(AgentError::NotFound(x)) && x@ == id) && after == before,
        Some(row) => {
            let new_row = row_of(
                id,
                cell_text(row, 1),
                AgentStatus::Running,
                checkpoint,
                since(row, now),
                now,
            );
            match r {
                Ok(us) => stored(before, id, new_row, after, Ok(us)),
                Err(e) => e matches AgentError::Db(x) && stored(
                    before,
                    id,
                    new_row,
                    after,
                    Err(x),
                ),
            }
        },
    }
}

/// A paused agent answers a delivery with nothing, a resumed one takes a step with
/// it, and one that was told to stop stops.
pub proof fn law_pause_holds_deliveries_back(
    a: Agent,
    paused: Agent,
    resumed: Agent,
    after: Agent,
    payload: String,
    r1: Reaction,
    r2: Reaction,
    r3: Reaction,
    r4: Reaction,
    held: Agent,
)
    requires
        reacted(a, AgentMessage::Pause, r1, paused),
        reacted(paused, AgentMessage::Deliver(payload), r2, held),
        reacted(held, AgentMessage::Resume, r3, resumed),
        reacted(resumed, AgentMessage::Deliver(payload), r4, after),
    ensures
        r1 is Nothing,
        r2 matches Reaction::Reply(s) && s@.len() == 0,
        r3 is Nothing,
        r4 == Reaction::Step(payload),
        after.state == a.state,
        after.saved() == a.saved(),
{
}

/// An agent asked for its checkpoint answers with what it has noted, and else with
/// its last answer; an agent that begins with a checkpoint answers with that one.
pub proof fn law_checkpoint_is_answered(
    a: Agent,
    b: Agent,
    c: Agent,
    r: Reaction,
    again: Reaction,
    checkpoint: Seq<char>,
)
    requires
        reacted(a, AgentMessage::Checkpoint, r, b),
        reacted(b, AgentMessage::Checkpoint, again, c),
    ensures
        a.begins_with(checkpoint) ==> (r matches Reaction::Reply(s) && s@ == checkpoint),
        (a.state.short_term@.contains_key(CHECKPOINT@) && r is Reply) ==> r->Reply_0@
            == a.state.short_term@[CHECKPOINT@]@,
        r matches Reaction::Reply(s) && (again matches Reaction::Reply(t) && t@ == s@),
{
    if a.begins_with(checkpoint) {
        if checkpoint.len() > 0 {
            assert(a.state.short_term@.dom().contains(CHECKPOINT@));
        } else {
            assert(!a.state.short_term@.contains_key(CHECKPOINT@));
            assert(a.saved() =~= checkpoint);
        }
    }
}

/// A new status leaves the agent's name, its checkpoint and the time of its making,
/// and a new checkpoint leaves its name and the time of its making.
pub proof fn law_status_and_checkpoint_change_alone(
    before: Database,
    id: Seq<char>,
    name: Seq<char>,
    was: AgentStatus,
    had: Seq<char>,
    made: i64,
    then: i64,
    status: AgentStatus,
    checkpoint: Seq<char>,
    now: i64,
    set: Database,
    given: Database,
    us: Vec<OuterUpdate>,
    vs: Vec<OuterUpdate>,
)
    requires
        row_in(before, id) == Some(row_of(id, name, was, had, made, then)),
        encode_utf8(id).len() <= i32::MAX,
        encode_utf8(name).len() <= i32::MAX,
        encode_utf8(had).len() <= i32::MAX,
        encode_utf8(checkpoint).len() <= i32::MAX,
        status_kept(before, id, status, now, set, Ok(us)),
        checkpoint_kept(before, id, checkpoint, now, given, Ok(vs)),
    ensures
        checkpoint_in(set, id) == had,
        checkpoint_in(given, id) == checkpoint,
        stored(before, id, row_of(id, name, status, had, made, now), set, Ok(us)),
        stored(
            before,
            id,
            row_of(id, name, AgentStatus::Running, checkpoint, made, now),
            given,
            Ok(vs),
        ),
{
    law_agent_is_read_back(id, name, was, had, made, then);
    law_checkpoint_survives(before, set, Ok(us), id, name, status, had, made, now);
    law_checkpoint_survives(
        before,
        given,
        Ok(vs),
        id,
        name,
        AgentStatus::Running,
        checkpoint,
        made,
        now,
    );
}

/// Where a status is set, the message that is sent brings a live agent to that
/// status; nothing is sent to one that is not live.
pub proof fn law_message_brings_the_status(
    reg: AgentRegistry,
    id: &str,
    status: AgentStatus,
    m: Option<AgentMessage>,
    a: Agent,
    r: Reaction,
    b: Agent,
)
    requires
        call_ensures(AgentRegistry::set_status, (&reg, id, status), m),
        m matches Some(x) ==> reacted(a, x, r, b),
    ensures
        m is Some <==> reg.names().contains(id@),
        m is Some ==> b.doing() == status && b.saved() == a.saved() && b.state == a.state,
{
}

} // verus!
