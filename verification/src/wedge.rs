//! A ledger of accounts: what is asked of the database, and what its answers
//! allow.

use vstd::prelude::*;
use vstd::string::*;
use vstd::utf8::*;

use crate::database::rows;
use crate::database::rows::decode_i64;
use crate::text;
use crate::text::signed_text;

verus! {

pub const CREATE_ACCOUNTS: &'static str = "CREATE TABLE IF NOT EXISTS accounts (id BIGINT PRIMARY KEY, name TEXT NOT NULL, balance BIGINT NOT NULL);";

pub const COUNT_ACCOUNTS: &'static str = "SELECT count(*) FROM accounts;";

pub const SEED_ACCOUNTS: &'static str = "INSERT INTO accounts (id, name, balance) VALUES (1, 'Alice', 1000), (2, 'Bob', 500);";

pub const LIST_ACCOUNTS: &'static str = "SELECT id, name, balance FROM accounts ORDER BY id;";

/// An account.
#[derive(Debug, Clone, PartialEq)]
pub struct Account {
    pub id: i64,
    pub name: String,
    pub balance: i64,
}

/// A number in a cell that may be missing.
pub open spec fn number_in(cell: Option<Seq<char>>) -> Option<i64> {
    match cell {
        Some(c) => rows::i64_in(encode_utf8(c)),
        None => None,
    }
}

pub open spec fn cell_view(cell: Option<String>) -> Option<Seq<char>> {
    match cell {
        Some(c) => Some(c@),
        None => None,
    }
}

fn number(cell: &Option<String>) -> (n: Option<i64>)
    ensures
        n == number_in(cell_view(*cell)),
{
    match cell {
        Some(c) => decode_i64(c.as_str().as_bytes()),
        None => None,
    }
}

/// Whether the first accounts have to be added: the count is zero, or cannot be
/// read.
pub fn needs_seed(count: Option<String>) -> (r: bool)
    ensures
        r == (match number_in(cell_view(count)) {
            Some(n) => n == 0,
            None => true,
        }),
{
    match number(&count) {
        Some(n) => n == 0,
        None => true,
    }
}

/// What is wrong with a row of accounts.
#[derive(Debug, Clone, Copy, PartialEq, Eq, Structural)]
pub enum RowFault {
    MissingId,
    BadId,
    MissingName,
    MissingBalance,
    BadBalance,
}

impl RowFault {
    pub open spec fn text(self) -> Seq<char> {
        match self {
            RowFault::MissingId => "missing id column"@,
            RowFault::BadId => "parse id"@,
            RowFault::MissingName => "missing name column"@,
            RowFault::MissingBalance => "missing balance column"@,
            RowFault::BadBalance => "parse balance"@,
        }
    }

    /// What is wrong, in words.
    pub fn message(self) -> (m: &'static str)
        ensures
            m@ == self.text(),
    {
        match self {
            RowFault::MissingId => "missing id column",
            RowFault::BadId => "parse id",
            RowFault::MissingName => "missing name column",
            RowFault::MissingBalance => "missing balance column",
            RowFault::BadBalance => "parse balance",
        }
    }
}

/// The cell of a row, if the row has it.
pub open spec fn cell(row: Seq<Option<String>>, i: int) -> Option<Seq<char>> {
    if i < row.len() {
        cell_view(row[i])
    } else {
        None
    }
}

/// Whether a row was read: as this account, or with this fault.
pub open spec fn row_is(row: Seq<Option<String>>, r: Result<Account, RowFault>) -> bool {
    if cell(row, 0) is None {
        r == Err::<Account, RowFault>(RowFault::MissingId)
    } else if number_in(cell(row, 0)) is None {
        r == Err::<Account, RowFault>(RowFault::BadId)
    } else if cell(row, 1) is None {
        r == Err::<Account, RowFault>(RowFault::MissingName)
    } else if cell(row, 2) is None {
        r == Err::<Account, RowFault>(RowFault::MissingBalance)
    } else if number_in(cell(row, 2)) is None {
        r == Err::<Account, RowFault>(RowFault::BadBalance)
    } else {
        &&& r matches Ok(a)
        &&& Some(a.id) == number_in(cell(row, 0))
        &&& Some(a.name@) == cell(row, 1)
        &&& Some(a.balance) == number_in(cell(row, 2))
    }
}

fn cell_at(row: &Vec<Option<String>>, i: usize) -> (c: Option<String>)
    ensures
        cell_view(c) == cell(row@, i as int),
{
    if i < row.len() {
        match &row[i] {
            Some(c) => Some(c.clone()),
            None => None,
        }
    } else {
        None
    }
}

/// Reads a row as an account.
pub fn account_in(row: &Vec<Option<String>>) -> (r: Result<Account, RowFault>)
    ensures
        row_is(row@, r),
{
    let first = cell_at(row, 0);
    if first.is_none() {
        return Err(RowFault::MissingId);
    }
    let id: i64 = match number(&first) {
        Some(n) => n,
        None => return Err(RowFault::BadId),
    };
    let name = match cell_at(row, 1) {
        Some(n) => n,
        None => return Err(RowFault::MissingName),
    };
    let last = cell_at(row, 2);
    if last.is_none() {
        return Err(RowFault::MissingBalance);
    }
    match number(&last) {
        Some(balance) => Ok(Account { id, name, balance }),
        None => Err(RowFault::BadBalance),
    }
}

/// Whether rows were read: each as an account, in order, or the first faulty
/// one with its fault.
pub open spec fn rows_are(
    rows: Seq<Vec<Option<String>>>,
    r: Result<Seq<Account>, RowFault>,
) -> bool {
    match r {
        Ok(list) => list.len() == rows.len() && forall|i: int|
            0 <= i < rows.len() ==> row_is(
                #[trigger] rows[i]@,
                Ok::<Account, RowFault>(list[i]),
            ),
        Err(f) => exists|i: int|
            0 <= i < rows.len() && row_is(
                #[trigger] rows[i]@,
                Err::<Account, RowFault>(f),
            ) && forall|k: int|
                0 <= k < i ==> readable(#[trigger] rows[k]@),
    }
}

/// Whether a row has no fault.
pub open spec fn readable(row: Seq<Option<String>>) -> bool {
    &&& number_in(cell(row, 0)) is Some
    &&& cell(row, 1) is Some
    &&& number_in(cell(row, 2)) is Some
}

/// Reads rows as accounts.
pub fn list_accounts(rows: &Vec<Vec<Option<String>>>) -> (r: Result<Vec<Account>, RowFault>)
    ensures
        rows_are(
            rows@,
            match r {
                Ok(list) => Ok(list@),
                Err(f) => Err(f),
            },
        ),
{
    let mut list: Vec<Account> = Vec::new();
    let mut i: usize = 0;
    while i < rows.len()
        invariant
            i <= rows@.len(),
            list@.len() == i,
            forall|k: int|
                0 <= k < i ==> row_is(#[trigger] rows@[k]@, Ok::<Account, RowFault>(list@[k])),
            forall|k: int| 0 <= k < i ==> readable(#[trigger] rows@[k]@),
        decreases rows@.len() - i,
    {
        match account_in(&rows[i]) {
            Ok(a) => {
                list.push(a);
            },
            Err(f) => {
                assert(row_is(rows@[i as int]@, Err::<Account, RowFault>(f)));
                return Err(f);
            },
        }
        i += 1;
    }
    Ok(list)
}

/// A request to move money.
#[derive(Debug, Clone, Copy, PartialEq, Eq, Structural)]
pub struct Transfer {
    pub from: i64,
    pub to: i64,
    pub amount: i64,
}

/// What is written down about a transfer.
#[derive(Debug, Clone, PartialEq)]
pub struct AuditEntry {
    pub target: String,
    pub allowed: bool,
    pub amount: String,
    pub reason: Option<String>,
}

/// Why no money was moved.
#[derive(Debug, Clone, Copy, PartialEq, Eq, Structural)]
pub enum TransferError {
    NotPositive,
    UnknownAccount(i64),
    InsufficientFunds(i64),
}

impl TransferError {
    pub open spec fn text(self) -> Seq<char> {
        match self {
            TransferError::NotPositive => "amount must be positive"@,
            TransferError::UnknownAccount(id) => "unknown account "@ + text::signed(id as int),
            TransferError::InsufficientFunds(id) => "insufficient funds in account "@
                + text::signed(id as int),
        }
    }

    /// What is wrong, in words.
    pub fn message(self) -> (m: String)
        ensures
            m@ == self.text(),
    {
        match self {
            TransferError::NotPositive => "amount must be positive".to_owned(),
            TransferError::UnknownAccount(id) => {
                let mut m = "unknown account ".to_owned();
                m.append(signed_text(id).as_str());
                m
            },
            TransferError::InsufficientFunds(id) => {
                let mut m = "insufficient funds in account ".to_owned();
                m.append(signed_text(id).as_str());
                m
            },
        }
    }
}

/// What to do next for a transfer.
#[derive(Debug, Clone, PartialEq)]
pub enum Step {
    /// Ask the database for the balance, then go on with `on_balance`.
    ReadBalance(String),
    /// Turn the transfer down; where there is an entry, write it down first.
    Deny(Option<AuditEntry>, TransferError),
    /// Have the database move the money, then write the entry down.
    Move(String, AuditEntry),
}

impl Transfer {
    pub open spec fn target(self) -> Seq<char> {
        "account:"@ + text::signed(self.from as int) + "->account:"@ + text::signed(
            self.to as int,
        )
    }

    /// Whether an entry tells of this transfer.
    pub open spec fn told_by(
        self,
        e: AuditEntry,
        allowed: bool,
        reason: Option<Seq<char>>,
    ) -> bool {
        &&& e.target@ == self.target()
        &&& e.allowed == allowed
        &&& e.amount@ == text::signed(self.amount as int)
        &&& cell_view(e.reason) == reason
    }

    fn entry(self, allowed: bool, reason: Option<String>) -> (e: AuditEntry)
        ensures
            self.told_by(e, allowed, cell_view(reason)),
    {
        let mut target = "account:".to_owned();
        target.append(signed_text(self.from).as_str());
        target.append("->account:");
        target.append(signed_text(self.to).as_str());
        AuditEntry { target, allowed, amount: signed_text(self.amount), reason }
    }

    /// The question for the balance.
    pub open spec fn balance_query(self) -> Seq<char> {
        "SELECT balance FROM accounts WHERE id = "@ + text::signed(self.from as int) + ";"@
    }

    /// The two updates that move the money, in one request.
    pub open spec fn update_query(self) -> Seq<char> {
        "UPDATE accounts SET balance = balance - "@ + text::signed(self.amount as int)
            + " WHERE id = "@ + text::signed(self.from as int)
            + "; UPDATE accounts SET balance = balance + "@ + text::signed(self.amount as int)
            + " WHERE id = "@ + text::signed(self.to as int) + ";"@
    }

    /// Starts a transfer. An amount that is not positive is turned down.
    pub fn begin(self) -> (s: Step)
        ensures
            if self.amount <= 0 {
                &&& s matches Step::Deny(Some(e), TransferError::NotPositive)
                &&& self.told_by(e, false, Some("non-positive amount"@))
            } else {
                s matches Step::ReadBalance(q) && q@ == self.balance_query()
            },
    {
        if self.amount <= 0 {
            let e = self.entry(false, Some("non-positive amount".to_owned()));
            return Step::Deny(Some(e), TransferError::NotPositive);
        }
        let mut q = "SELECT balance FROM accounts WHERE id = ".to_owned();
        q.append(signed_text(self.from).as_str());
        q.append(";");
        Step::ReadBalance(q)
    }

    /// Goes on once the balance is known: `balance` is the first cell of the
    /// answer. Money is moved only where the balance covers the amount.
    pub fn on_balance(self, balance: Option<String>) -> (s: Step)
        ensures
            match number_in(cell_view(balance)) {
                None => s == Step::Deny(None, TransferError::UnknownAccount(self.from)),
                Some(b) => if b < self.amount {
                    &&& s matches Step::Deny(Some(e), TransferError::InsufficientFunds(id))
                    &&& id == self.from
                    &&& self.told_by(e, false, Some("insufficient funds"@))
                } else {
                    &&& s matches Step::Move(q, e)
                    &&& q@ == self.update_query()
                    &&& self.told_by(e, true, None)
                },
            },
    {
        let current: i64 = match number(&balance) {
            Some(b) => b,
            None => return Step::Deny(None, TransferError::UnknownAccount(self.from)),
        };
        if current < self.amount {
            let e = self.entry(false, Some("insufficient funds".to_owned()));
            return Step::Deny(Some(e), TransferError::InsufficientFunds(self.from));
        }
        let mut q = "UPDATE accounts SET balance = balance - ".to_owned();
        q.append(signed_text(self.amount).as_str());
        q.append(" WHERE id = ");
        q.append(signed_text(self.from).as_str());
        q.append("; UPDATE accounts SET balance = balance + ");
        q.append(signed_text(self.amount).as_str());
        q.append(" WHERE id = ");
        q.append(signed_text(self.to).as_str());
        q.append(";");
        let e = self.entry(true, None);
        Step::Move(q, e)
    }
}

/// One balance changed, where there is such an account.
pub open spec fn changed(balances: Map<i64, int>, id: i64, by: int) -> Map<i64, int> {
    if balances.contains_key(id) {
        balances.insert(id, balances[id] + by)
    } else {
        balances
    }
}

/// The balances after the two updates of a transfer.
pub open spec fn settled(balances: Map<i64, int>, t: Transfer) -> Map<i64, int> {
    changed(changed(balances, t.from, -t.amount), t.to, t.amount as int)
}

/// A transfer that is not turned down leaves no balance below zero that was
/// not, and changes no third account. Where both accounts exist, it keeps what
/// they hold together.
pub proof fn law_transfer_keeps_the_sum(balances: Map<i64, int>, t: Transfer, other: i64)
    requires
        balances.contains_key(t.from),
        0 < t.amount <= balances[t.from],
        forall|id: i64| balances.contains_key(id) ==> balances[id] >= 0,
    ensures
        forall|id: i64| settled(balances, t).contains_key(id) ==> settled(balances, t)[id] >= 0,
        t.from != t.to && balances.contains_key(t.to) ==> settled(balances, t)[t.from]
            + settled(balances, t)[t.to] == balances[t.from] + balances[t.to],
        t.from == t.to ==> settled(balances, t)[t.from] == balances[t.from],
        other != t.from && other != t.to && balances.contains_key(other) ==> settled(
            balances,
            t,
        )[other] == balances[other],
        settled(balances, t).dom() == balances.dom(),
{
    assert(settled(balances, t).dom() =~= balances.dom());
}

/// The change that an update of one balance asks for, read word by word.
pub open spec fn change_in(words: Seq<Seq<char>>) -> Option<(i64, int)> {
    if words.len() == 12 && words.take(6) == seq![
        "UPDATE"@,
        "accounts"@,
        "SET"@,
        "balance"@,
        "="@,
        "balance"@,
    ] && words.subrange(8, 11) == seq!["WHERE"@, "id"@, "="@] {
        match (number_in(Some(words[7])), number_in(Some(words[11]))) {
            (Some(by), Some(id)) => if words[6] == "+"@ {
                Some((id, by as int))
            } else if words[6] == "-"@ {
                Some((id, -by))
            } else {
                None
            },
            _ => None,
        }
    } else {
        None
    }
}

/// The balances after one statement; an empty one changes nothing, and one that
/// is no update of a balance cannot be carried out.
pub open spec fn after_statement(balances: Map<i64, int>, statement: Seq<char>) -> Option<
    Map<i64, int>,
> {
    let s = if statement.len() > 0 && statement[0] == ' ' {
        statement.skip(1)
    } else {
        statement
    };
    if s.len() == 0 {
        Some(balances)
    } else {
        match change_in(text::split(s, ' ')) {
            Some((id, by)) => Some(changed(balances, id, by)),
            None => None,
        }
    }
}

/// The balances after several statements.
pub open spec fn after_statements(balances: Map<i64, int>, statements: Seq<Seq<char>>) -> Option<
    Map<i64, int>,
>
    decreases statements.len(),
{
    if statements.len() == 0 {
        Some(balances)
    } else {
        match after_statements(balances, statements.drop_last()) {
            None => None,
            Some(b) => after_statement(b, statements.last()),
        }
    }
}

/// The balances after a request of statements, each with a semicolon behind it.
pub open spec fn executed(balances: Map<i64, int>, request: Seq<char>) -> Option<Map<i64, int>> {
    after_statements(balances, text::split(request, ';'))
}

/// One update of a balance, as it is written.
spec fn update_text(sign: Seq<char>, by: i64, id: i64) -> Seq<char> {
    "UPDATE accounts SET balance = balance "@ + sign + " "@ + text::signed(by as int)
        + " WHERE id = "@ + text::signed(id as int)
}

proof fn lemma_update(balances: Map<i64, int>, sign: Seq<char>, by: i64, id: i64)
    requires
        sign == "+"@ || sign == "-"@,
    ensures
        ({
            let u = update_text(sign, by, id);
            &&& u.len() > 0
            &&& u[0] == 'U'
            &&& !u.contains(';')
            &&& after_statement(balances, u) == Some(
                changed(
                    balances,
                    id,
                    if sign == "+"@ {
                        by as int
                    } else {
                        -by
                    },
                ),
            )
        }),
{
    reveal_strlit("+");
    reveal_strlit("-");
    reveal_strlit(" ");
    reveal_strlit("UPDATE");
    reveal_strlit("accounts");
    reveal_strlit("SET");
    reveal_strlit("balance");
    reveal_strlit("=");
    reveal_strlit("WHERE");
    reveal_strlit("id");
    reveal_strlit("UPDATE accounts SET balance = balance ");
    reveal_strlit(" WHERE id = ");
    let n = text::signed(by as int);
    let i = text::signed(id as int);
    text::law_signed_stands_for_its_number(by as int);
    text::law_signed_stands_for_its_number(id as int);
    rows::law_number_is_read_back(by);
    rows::law_number_is_read_back(id);
    let head = seq!["UPDATE"@, "accounts"@, "SET"@, "balance"@, "="@, "balance"@];
    let mid = seq!["WHERE"@, "id"@, "="@];
    let words = head + seq![sign, n] + mid + seq![i];
    let u = update_text(sign, by, id);
    assert("+"@[0] == '+');
    assert("-"@[0] == '-');
    assert(text::joined(head, ' ') =~= "UPDATE accounts SET balance = balance"@) by {
        reveal_with_fuel(text::joined, 7);
        reveal_strlit("UPDATE accounts SET balance = balance");
    }
    assert(text::joined(mid, ' ') =~= "WHERE id ="@) by {
        reveal_with_fuel(text::joined, 4);
        reveal_strlit("WHERE id =");
    }
    assert(text::joined(seq![sign, n], ' ') =~= sign + seq![' '] + n) by {
        reveal_with_fuel(text::joined, 3);
        assert(seq![sign, n].drop_first() =~= seq![n]);
    }
    assert(text::joined(seq![i], ' ') == i);
    text::lemma_joined_parts(head, seq![sign, n], ' ');
    text::lemma_joined_parts(head + seq![sign, n], mid, ' ');
    text::lemma_joined_parts(head + seq![sign, n] + mid, seq![i], ' ');
    reveal_strlit("UPDATE accounts SET balance = balance");
    reveal_strlit("WHERE id =");
    assert("UPDATE accounts SET balance = balance "@ =~= "UPDATE accounts SET balance = balance"@
        + seq![' ']);
    assert(" WHERE id = "@ =~= seq![' '] + "WHERE id ="@ + seq![' ']);
    assert(" "@ =~= seq![' ']);
    assert(text::joined(words, ' ') =~= u);
    assert forall|a: int, k: int| 0 <= a < words.len() && 0 <= k < words[a].len() implies
        #[trigger] words[a][k] != ' ' by {
        if a < 6 {
            assert(words[a] == head[a]);
        } else if a == 6 {
            assert(words[a] == sign);
        } else if a == 7 {
            assert(words[a] == n);
        } else if a < 11 {
            assert(words[a] == mid[a - 8]);
        } else {
            assert(words[a] == i);
        }
    }
    text::law_joined_pieces_are_split_again(words, ' ');
    assert(words.take(6) =~= head);
    assert(words.subrange(8, 11) =~= mid);
    assert(words[6] == sign);
    assert(words[7] == n);
    assert(words[11] == i);
    assert(u[0] == "UPDATE accounts SET balance = balance "@[0]);
    assert forall|k: int| 0 <= k < u.len() implies u[k] != ';' by {
        let a = "UPDATE accounts SET balance = balance "@;
        let b = a + sign + " "@;
        let c = b + n;
        let d = c + " WHERE id = "@;
        assert(u == d + i);
        if k < a.len() {
            assert(u[k] == a[k]);
        } else if k < b.len() {
            assert(u[k] == b[k]);
        } else if k < c.len() {
            assert(u[k] == n[k - b.len()]);
        } else if k < d.len() {
            assert(u[k] == " WHERE id = "@[k - c.len()]);
        } else {
            assert(u[k] == i[k - d.len()]);
        }
    }
    assert(sign == "-"@ ==> sign != "+"@);
}

/// The two updates, one behind the other.
proof fn lemma_request_text(t: Transfer)
    ensures
        t.update_query() == text::joined(
            seq![
                update_text("-"@, t.amount, t.from),
                seq![' '] + update_text("+"@, t.amount, t.to),
                Seq::<char>::empty(),
            ],
            ';',
        ),
{
    reveal_strlit(";");
    reveal_strlit("+");
    reveal_strlit("-");
    reveal_strlit(" ");
    let first = update_text("-"@, t.amount, t.from);
    let led = seq![' '] + update_text("+"@, t.amount, t.to);
    let none = Seq::<char>::empty();
    let statements = seq![first, led, none];
    assert(text::joined(statements, ';') == first + seq![';'] + (led + seq![';'] + none)) by {
        reveal_with_fuel(text::joined, 4);
        assert(statements.drop_first() =~= seq![led, none]);
        assert(seq![led, none].drop_first() =~= seq![none]);
    }
    let shared = "UPDATE accounts SET balance = balance "@;
    let pay = "UPDATE accounts SET balance = balance - "@;
    let get = "; UPDATE accounts SET balance = balance + "@;
    let at = " WHERE id = "@;
    let n = text::signed(t.amount as int);
    let from = text::signed(t.from as int);
    let to = text::signed(t.to as int);
    assert(pay =~= shared + "-"@ + " "@) by {
        reveal_strlit("UPDATE accounts SET balance = balance ");
        reveal_strlit("UPDATE accounts SET balance = balance - ");
    }
    assert(get =~= seq![';', ' '] + (shared + "+"@ + " "@)) by {
        reveal_strlit("UPDATE accounts SET balance = balance ");
        reveal_strlit("; UPDATE accounts SET balance = balance + ");
    }
    assert(";"@ =~= seq![';']);
    let third = (shared + "+"@ + " "@);
    assert(pay + n + at + from + (seq![';', ' '] + third) + n + at + to + seq![';'] =~= (pay + n
        + at + from) + seq![';'] + (seq![' '] + (third + n + at + to) + seq![';'] + none));
}

/// Carried out by the database, the request that moves the money takes the amount
/// from the account `from` and adds it to the account `to`, whichever number is
/// the smaller, and changes nothing else.
pub proof fn law_request_moves_the_money(balances: Map<i64, int>, t: Transfer)
    ensures
        executed(balances, t.update_query()) == Some(settled(balances, t)),
        settled(balances, t).dom() == balances.dom(),
        t.from != t.to && balances.contains_key(t.from) ==> settled(balances, t)[t.from]
            == balances[t.from] - t.amount,
        t.from != t.to && balances.contains_key(t.to) ==> settled(balances, t)[t.to]
            == balances[t.to] + t.amount,
        forall|id: i64|
            balances.contains_key(id) && (id != t.from && id != t.to || t.from == t.to)
                ==> #[trigger] settled(balances, t)[id] == balances[id],
{
    reveal_strlit("+");
    reveal_strlit("-");
    let first = update_text("-"@, t.amount, t.from);
    let second = update_text("+"@, t.amount, t.to);
    let between = changed(balances, t.from, -t.amount);
    lemma_update(balances, "-"@, t.amount, t.from);
    lemma_update(between, "+"@, t.amount, t.to);
    assert("+"@[0] == '+');
    assert("-"@[0] == '-');
    let none = Seq::<char>::empty();
    let led = seq![' '] + second;
    let statements = seq![first, led, none];
    lemma_request_text(t);
    assert forall|a: int, k: int|
        0 <= a < statements.len() && 0 <= k < statements[a].len() implies #[trigger] statements[a][k]
        != ';' by {
        if a == 0 {
            assert(first.contains(first[k]));
        } else if a == 1 && k > 0 {
            assert(second.contains(second[k - 1]));
            assert(led[k] == second[k - 1]);
        }
    }
    text::law_joined_pieces_are_split_again(statements, ';');
    assert(led.skip(1) =~= second);
    reveal_with_fuel(after_statements, 4);
    assert(statements.drop_last() =~= seq![first, led]);
    assert(seq![first, led].drop_last() =~= seq![first]);
    assert(seq![first].drop_last() =~= Seq::<Seq<char>>::empty());
    assert(settled(balances, t).dom() =~= balances.dom());
    if t.from == t.to && balances.contains_key(t.from) {
        assert(settled(balances, t)[t.from] == balances[t.from]);
    }
}

/// A transfer goes through exactly where the balance that was read covers the
/// amount: then the request is the one that moves the money, and the entry says
/// that it was allowed. Else nothing is asked of the database.
pub proof fn law_covered_transfer_goes_through(
    t: Transfer,
    balance: Option<String>,
    b: i64,
    s: Step,
    balances: Map<i64, int>,
)
    requires
        call_ensures(Transfer::on_balance, (t, balance), s),
        balance matches Some(text) && text@ == text::signed(b as int),
    ensures
        b >= t.amount ==> (s matches Step::Move(q, e) && e.allowed && e.reason is None && executed(
            balances,
            q@,
        ) == Some(settled(balances, t))),
        b < t.amount ==> (s matches Step::Deny(Some(e), TransferError::InsufficientFunds(id)) && id
            == t.from && !e.allowed && e.reason is Some),
{
    rows::law_number_is_read_back(b);
    law_request_moves_the_money(balances, t);
}

/// A transfer of a positive amount begins with the balance of the account that
/// pays; any other is turned down, and that is written down.
pub proof fn law_only_positive_amounts_are_looked_at(t: Transfer, s: Step)
    requires
        call_ensures(Transfer::begin, (t,), s),
    ensures
        t.amount > 0 ==> (s matches Step::ReadBalance(q) && q@
            == "SELECT balance FROM accounts WHERE id = "@ + text::signed(t.from as int) + ";"@),
        t.amount <= 0 ==> (s matches Step::Deny(Some(e), TransferError::NotPositive) && !e.allowed
            && e.amount@ == text::signed(t.amount as int)),
{
}

/// The entry about a transfer names the account that pays before the one that is
/// paid.
pub proof fn law_entry_names_both_accounts(
    t: Transfer,
    e: AuditEntry,
    allowed: bool,
    reason: Option<Seq<char>>,
)
    requires
        t.told_by(e, allowed, reason),
    ensures
        e.target@ == "account:"@ + text::signed(t.from as int) + "->account:"@ + text::signed(
            t.to as int,
        ),
        e.amount@ == text::signed(t.amount as int),
        e.allowed == allowed,
        e.reason is Some <==> reason is Some,
        e.reason matches Some(r) ==> r@ == reason->0,
{
}

/// A row of the texts of a number, a name and a number is the account of them.
pub proof fn law_account_is_read_back(
    row: Vec<Option<String>>,
    id: i64,
    name: Seq<char>,
    balance: i64,
    r: Result<Account, RowFault>,
)
    requires
        call_ensures(account_in, (&row,), r),
        row@.len() >= 3,
        row@[0] matches Some(c) && c@ == text::signed(id as int),
        row@[1] matches Some(c) && c@ == name,
        row@[2] matches Some(c) && c@ == text::signed(balance as int),
    ensures
        r matches Ok(a) && a.id == id && a.name@ == name && a.balance == balance,
{
    rows::law_number_is_read_back(id);
    rows::law_number_is_read_back(balance);
}

/// The first accounts are added to an empty table and to no other.
pub proof fn law_only_an_empty_table_is_seeded(count: Option<String>, n: i64, r: bool)
    requires
        call_ensures(needs_seed, (count,), r),
        count matches Some(c) && c@ == text::signed(n as int),
    ensures
        r <==> n == 0,
{
    rows::law_number_is_read_back(n);
}

} // verus!
