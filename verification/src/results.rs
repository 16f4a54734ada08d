//! Result records, and the buffer from which they are sent to the
//! coordinator in batches.

use crate::operation::texts;
use vstd::prelude::*;

verus! {

/// The character of a digit.
pub open spec fn digit_char(digit: int) -> char
    recommends
        0 <= digit < 10,
{
    if digit == 0 {
        '0'
    } else if digit == 1 {
        '1'
    } else if digit == 2 {
        '2'
    } else if digit == 3 {
        '3'
    } else if digit == 4 {
        '4'
    } else if digit == 5 {
        '5'
    } else if digit == 6 {
        '6'
    } else if digit == 7 {
        '7'
    } else if digit == 8 {
        '8'
    } else {
        '9'
    }
}

/// A number in decimal digits, without leading zeros.
pub open spec fn decimal_text(number: nat) -> Seq<char>
    decreases number,
{
    if number < 10 {
        seq![digit_char(number as int)]
    } else {
        decimal_text(number / 10).push(digit_char((number % 10) as int))
    }
}

/// The text of one digit.
fn digit_text(digit: u64) -> (text: &'static str)
    requires
        digit < 10,
    ensures
        text@ == seq![digit_char(digit as int)],
{
    proof {
        reveal_strlit("0");
        reveal_strlit("1");
        reveal_strlit("2");
        reveal_strlit("3");
        reveal_strlit("4");
        reveal_strlit("5");
        reveal_strlit("6");
        reveal_strlit("7");
        reveal_strlit("8");
        reveal_strlit("9");
    }
    let text = if digit == 0 {
        "0"
    } else if digit == 1 {
        "1"
    } else if digit == 2 {
        "2"
    } else if digit == 3 {
        "3"
    } else if digit == 4 {
        "4"
    } else if digit == 5 {
        "5"
    } else if digit == 6 {
        "6"
    } else if digit == 7 {
        "7"
    } else if digit == 8 {
        "8"
    } else {
        "9"
    };
    assert(text@ =~= seq![digit_char(digit as int)]);
    text
}

/// Writes a number in decimal digits.
pub fn decimal(number: u64) -> (text: String)
    ensures
        text@ == decimal_text(number as nat),
    decreases number,
{
    if number < 10 {
        digit_text(number).to_owned()
    } else {
        let mut text = decimal(number / 10);
        text.append(digit_text(number % 10));
        assert(text@ =~= decimal_text(number as nat));
        text
    }
}

/// The file of a script: its name below the directory of the scripts.
pub open spec fn script_path_text(directory: Seq<char>, script_name: Seq<char>) -> Seq<char> {
    directory + "/"@ + script_name
}

/// The file of a script: its name below the directory of the scripts.
pub fn script_path(directory: &str, script_name: &str) -> (path: String)
    ensures
        path@ == script_path_text(directory@, script_name@),
{
    let mut path = directory.to_owned();
    path.append("/");
    path.append(script_name);
    path
}

/// The arguments with which a script runs: the interpreter, the script's
/// file and the domain.
pub fn command_line(interpreter: &str, directory: &str, script_name: &str, domain: &str) -> (line:
    Vec<String>)
    ensures
        texts(line@) == seq![
            interpreter@,
            script_path_text(directory@, script_name@),
            domain@,
        ],
{
    let mut line: Vec<String> = Vec::new();
    line.push(interpreter.to_owned());
    line.push(script_path(directory, script_name));
    line.push(domain.to_owned());
    assert(texts(line@) =~= seq![
        interpreter@,
        script_path_text(directory@, script_name@),
        domain@,
    ]);
    line
}

/// How a run of a script ended: the script ran, with or without success,
/// and printed `stdout`; or it could not be started or waited for.
pub enum Execution {
    Exited { success: bool, stdout: String },
    Failed { reason: String },
}

/// What a result record says of a run: the output, or that it failed and
/// why.
pub enum Outcome {
    Output(String),
    Failure(String),
}

/// The mathematical value of an `Outcome`.
pub enum OutcomeView {
    Output(Seq<char>),
    Failure(Seq<char>),
}

impl View for Outcome {
    type V = OutcomeView;

    open spec fn view(&self) -> OutcomeView {
        match self {
            Outcome::Output(stdout) => OutcomeView::Output(stdout@),
            Outcome::Failure(reason) => OutcomeView::Failure(reason@),
        }
    }
}

/// The outcome of a run. A run that could not be started or waited for is a
/// failure with its reason. A script that ran is a failure only where it
/// ended without success and printed nothing; whatever it printed is its
/// output otherwise.
pub open spec fn outcome_of(execution: Execution) -> OutcomeView {
    match execution {
        Execution::Failed { reason } => OutcomeView::Failure(reason@),
        Execution::Exited { success, stdout } => if !success && stdout@.len() == 0 {
            OutcomeView::Failure("script failed without output"@)
        } else {
            OutcomeView::Output(stdout@)
        },
    }
}

impl Outcome {
    /// The outcome of a run.
    pub fn of(execution: Execution) -> (outcome: Outcome)
        ensures
            outcome@ == outcome_of(execution),
    {
        match execution {
            Execution::Failed { reason } => Outcome::Failure(reason),
            Execution::Exited { success, stdout } => {
                if !success && stdout.as_str().is_empty() {
                    Outcome::Failure("script failed without output".to_owned())
                } else {
                    Outcome::Output(stdout)
                }
            },
        }
    }
}

/// The text of a result record: a JSON object with the time of the run, the
/// vantage's host name and address, the script and the domain, and then
/// either the output as it was printed or the reason of the failure. Texts
/// are written as they are.
pub open spec fn record_text(
    timestamp: u64,
    hostname: Seq<char>,
    ip_address: Seq<char>,
    script_name: Seq<char>,
    domain: Seq<char>,
    outcome: OutcomeView,
) -> Seq<char> {
    "{\"Timestamp\":"@ + decimal_text(timestamp as nat) + ",\"Hostname\":\""@ + hostname
        + "\",\"IpAddress\":\""@ + ip_address + "\",\"Script\":\""@ + script_name
        + "\",\"Domain\":\""@ + domain + "\""@ + match outcome {
        OutcomeView::Output(stdout) => ",\"Error\":false,\"Result\":"@ + stdout,
        OutcomeView::Failure(reason) => ",\"Error\":true,\"ErrorMessage\":\""@ + reason + "\""@,
    } + "}"@
}

/// Writes the result record of one run.
pub fn result_record(
    timestamp: u64,
    hostname: &str,
    ip_address: &str,
    script_name: &str,
    domain: &str,
    outcome: &Outcome,
) -> (record: String)
    ensures
        record@ == record_text(timestamp, hostname@, ip_address@, script_name@, domain@, outcome@),
{
    let mut record = "{\"Timestamp\":".to_owned();
    let time = decimal(timestamp);
    record.append(time.as_str());
    record.append(",\"Hostname\":\"");
    record.append(hostname);
    record.append("\",\"IpAddress\":\"");
    record.append(ip_address);
    record.append("\",\"Script\":\"");
    record.append(script_name);
    record.append("\",\"Domain\":\"");
    record.append(domain);
    record.append("\"");
    let ghost head = record@;
    match outcome {
        Outcome::Output(stdout) => {
            record.append(",\"Error\":false,\"Result\":");
            record.append(stdout.as_str());
            record.append("}");
            assert(record@ =~= head + (",\"Error\":false,\"Result\":"@ + stdout@) + "}"@);
        },
        Outcome::Failure(reason) => {
            record.append(",\"Error\":true,\"ErrorMessage\":\"");
            record.append(reason.as_str());
            record.append("\"");
            record.append("}");
            assert(record@ =~= head + (",\"Error\":true,\"ErrorMessage\":\""@ + reason@ + "\""@)
                + "}"@);
        },
    }
    record
}

/// The seconds for which nothing is sent after a batch could not be sent.
pub const RETRY_COOLDOWN: u64 = 600;

/// The results that wait to be sent, in the order in which they came, with
/// the size from which a batch is sent and the second before which nothing
/// is sent.
pub struct ResultBuffer {
    records: Vec<String>,
    batch_size: usize,
    retry_allowed_after: u64,
}

/// The mathematical value of a `ResultBuffer`.
pub struct ResultBufferView {
    pub records: Seq<Seq<char>>,
    pub batch_size: usize,
    pub retry_allowed_after: u64,
}

impl View for ResultBuffer {
    type V = ResultBufferView;

    closed spec fn view(&self) -> ResultBufferView {
        ResultBufferView {
            records: texts(self.records@),
            batch_size: self.batch_size,
            retry_allowed_after: self.retry_allowed_after,
        }
    }
}

impl ResultBufferView {
    /// A batch is to be sent at `now`: enough records wait, and the cooldown
    /// after a failure is over.
    pub open spec fn ready(self, now: u64) -> bool {
        self.records.len() >= self.batch_size && now >= self.retry_allowed_after
    }
}

impl ResultBuffer {
    /// An empty buffer that sends batches of `batch_size` records or more.
    pub fn new(batch_size: usize) -> (buffer: ResultBuffer)
        ensures
            buffer@ == (ResultBufferView {
                records: Seq::empty(),
                batch_size,
                retry_allowed_after: 0,
            }),
    {
        let buffer = ResultBuffer { records: Vec::new(), batch_size, retry_allowed_after: 0 };
        assert(buffer@.records =~= Seq::empty());
        buffer
    }

    /// The number of records that wait.
    pub fn len(&self) -> (len: usize)
        ensures
            len == self@.records.len(),
    {
        self.records.len()
    }

    /// The second before which nothing is sent; 0 where no batch has failed
    /// since the last one was sent.
    pub fn retry_allowed_after(&self) -> (second: u64)
        ensures
            second == self@.retry_allowed_after,
    {
        self.retry_allowed_after
    }

    /// The records that wait, oldest first: the next batch.
    pub fn records(&self) -> (records: &Vec<String>)
        ensures
            texts(records@) == self@.records,
    {
        &self.records
    }

    /// Takes a record in, behind those that wait.
    pub fn push(&mut self, record: String)
        ensures
            final(self)@ == (ResultBufferView {
                records: old(self)@.records.push(record@),
                ..old(self)@
            }),
    {
        self.records.push(record);
        assert(self@.records =~= old(self)@.records.push(record@));
    }

    /// Whether a batch is to be sent at `now`.
    pub fn ready(&self, now: u64) -> (ready: bool)
        ensures
            ready == self@.ready(now),
    {
        self.records.len() >= self.batch_size && now >= self.retry_allowed_after
    }

    /// Takes a record in at `now` and says whether a batch is to be sent.
    pub fn receive(&mut self, record: String, now: u64) -> (send: bool)
        ensures
            final(self)@ == (ResultBufferView {
                records: old(self)@.records.push(record@),
                ..old(self)@
            }),
            send == final(self)@.ready(now),
    {
        self.push(record);
        self.ready(now)
    }

    /// The batch was sent: nothing waits any more, and the next batch may go
    /// at any time.
    pub fn sent(&mut self)
        ensures
            final(self)@ == (ResultBufferView {
                records: Seq::empty(),
                retry_allowed_after: 0,
                ..old(self)@
            }),
    {
        self.records.clear();
        self.retry_allowed_after = 0;
        assert(self@.records =~= Seq::empty());
    }

    /// The batch could not be sent at `now`: the records stay, and nothing is
    /// sent before the cooldown is over.
    pub fn failed(&mut self, now: u64)
        requires
            now + RETRY_COOLDOWN <= u64::MAX,
        ensures
            final(self)@ == (ResultBufferView {
                retry_allowed_after: (now + RETRY_COOLDOWN) as u64,
                ..old(self)@
            }),
    {
        self.retry_allowed_after = now + RETRY_COOLDOWN;
    }
}

} // verus!
