use vstd::prelude::*;
use vstd::multiset::Multiset;
use crate::message::ParsedMessage;
use crate::session::sorted_by_time;

verus! {

/// A declared message of the bus database, as the column index reads it.
pub struct MessageDef {
    /// Numeric arbitration id (standard and extended ids share one space).
    pub id: u32,
    pub name: String,
    /// Transmitting node, `None` when the database names none.
    pub node: Option<String>,
    /// Declared signal names, in declaration order.
    pub signals: Vec<String>,
}

/// One output column: (transmitting node, message name, signal name).
pub type Column = (Seq<char>, Seq<char>, Seq<char>);

/// The messages that a bus database declares, each converted field by field.
pub uninterp spec fn declared_messages(p: can_decode::Parser) -> Multiset<MessageDef>;

/// Relies on can_decode::Parser::msg_defs: every loaded message definition,
/// converted field by field. Which messages come out depends on the parser
/// alone; their order is that of the parser's internal hash map.
#[verifier::external_body]
fn message_defs(parser: &can_decode::Parser) -> (defs: Vec<MessageDef>)
    ensures
        defs@.to_multiset() == declared_messages(*parser),
{
    parser.msg_defs().into_iter().map(|m| MessageDef {
        id: match m.id {
            can_dbc::MessageId::Standard(id) => id as u32,
            can_dbc::MessageId::Extended(id) => id,
        },
        name: m.name,
        node: match m.transmitter {
            can_dbc::Transmitter::NodeName(n) => Some(n),
            can_dbc::Transmitter::VectorXXX => None,
        },
        signals: m.signals.into_iter().map(|s| s.name).collect(),
    }).collect()
}

/// Ascending order of message ids.
pub open spec fn sorted_by_id(defs: Seq<MessageDef>) -> bool {
    forall|i: int, j: int| 0 <= i <= j < defs.len() ==> defs[i].id <= defs[j].id
}

/// Relies on slice::sort_by_key: sorts in place, ascending by the key,
/// keeping the same elements.
#[verifier::external_body]
fn sort_by_id(defs: &mut Vec<MessageDef>)
    ensures
        final(defs)@.to_multiset() == old(defs)@.to_multiset(),
        sorted_by_id(final(defs)@),
{
    defs.sort_by_key(|m| m.id);
}

/// `order` holds the messages of `defs` in ascending id order.
pub open spec fn is_id_order(defs: Seq<MessageDef>, order: Seq<MessageDef>) -> bool {
    order.to_multiset() == defs.to_multiset() && sorted_by_id(order)
}

/// `order` holds the messages that the database `p` declares, in ascending id order.
pub open spec fn is_declared_order(p: can_decode::Parser, order: Seq<MessageDef>) -> bool {
    order.to_multiset() == declared_messages(p) && sorted_by_id(order)
}

/// The node label a message's columns carry.
pub open spec fn node_label(m: MessageDef) -> Seq<char> {
    match m.node {
        Some(n) => n@,
        None => "N/A"@,
    }
}

/// The columns a message asks for, one per declared signal, in order.
pub open spec fn message_columns(m: MessageDef) -> Seq<Column> {
    m.signals@.map_values(|s: String| (node_label(m), m.name@, s@))
}

/// The columns asked for by `defs`, message after message.
pub open spec fn candidate_columns(defs: Seq<MessageDef>) -> Seq<Column>
    decreases defs.len(),
{
    if defs.len() == 0 {
        Seq::empty()
    } else {
        candidate_columns(defs.drop_last()) + message_columns(defs.last())
    }
}

/// Whether `cols` already holds a column for the (message, signal) pair of `col`.
pub open spec fn has_key(cols: Seq<Column>, col: Column) -> bool {
    exists|i: int| 0 <= i < cols.len() && (#[trigger] cols[i]).1 == col.1 && cols[i].2 == col.2
}

/// `cands` with each (message, signal) pair kept at its first occurrence only.
pub open spec fn first_occurrences(cands: Seq<Column>) -> Seq<Column>
    decreases cands.len(),
{
    if cands.len() == 0 {
        Seq::empty()
    } else {
        let kept = first_occurrences(cands.drop_last());
        if has_key(kept, cands.last()) {
            kept
        } else {
            kept.push(cands.last())
        }
    }
}

/// Width in milliseconds of one time bin (one table row).
pub const BIN_WIDTH_MS: u32 = 100;

/// `t` rounded down to a multiple of `bin`.
pub open spec fn floor_bin(t: int, bin: int) -> int {
    (t / bin) * bin
}

/// `t` rounded up to a multiple of `bin`.
pub open spec fn ceil_bin(t: int, bin: int) -> int {
    ((t + bin - 1) / bin) * bin
}

/// Rows of a table whose messages span `first..=last`: one per bin from the
/// aligned start to the aligned end, both included.
pub open spec fn row_count(first: int, last: int, bin: int) -> int {
    (ceil_bin(last, bin) - floor_bin(first, bin)) / bin + 1
}

/// The row that a timestamp falls in, counted from the aligned start.
pub open spec fn row_of(ts: u32, start: int) -> int {
    (ts - start) / (BIN_WIDTH_MS as int)
}

/// Aligns a time span to bins: the start rounded down, the end rounded up,
/// and the number of rows between them, both ends included.
pub fn aligned_bounds(first: u32, last: u32, bin: u32) -> (r: (u64, u64, u64))
    requires
        bin > 0,
        first <= last,
    ensures
        r.0 == floor_bin(first as int, bin as int),
        r.1 == ceil_bin(last as int, bin as int),
        r.2 == row_count(first as int, last as int, bin as int),
        r.0 <= first,
        last <= r.1,
        r.2 >= 1,
{
    let b = bin as u64;
    let f = first as u64;
    let l = last as u64;
    proof {
        let (bi, fi, li) = (b as int, f as int, l as int);
        assert((fi / bi) * bi <= fi) by (nonlinear_arith) requires bi > 0, fi >= 0;
        assert((li + bi - 1) / bi * bi <= li + bi - 1) by (nonlinear_arith) requires bi > 0, li >= 0;
        assert((li + bi - 1) / bi * bi >= li) by (nonlinear_arith) requires bi > 0, li >= 0;
        assert((fi / bi) * bi <= (li + bi - 1) / bi * bi) by (nonlinear_arith) requires bi > 0, 0 <= fi <= li;
    }
    let start = (f / b) * b;
    let end = ((l + b - 1) / b) * b;
    let rows = (end - start) / b + 1;
    (start, end, rows)
}

/// Earliest timestamp of a time-sorted chunk (zero when it is empty).
pub open spec fn first_time(chunk: Seq<ParsedMessage>) -> int {
    if chunk.len() == 0 { 0 } else { chunk[0].timestamp as int }
}

/// Latest timestamp of a time-sorted chunk (zero when it is empty).
pub open spec fn last_time(chunk: Seq<ParsedMessage>) -> int {
    if chunk.len() == 0 { 0 } else { chunk.last().timestamp as int }
}

/// Time (milliseconds) at which the first row of a chunk's table starts.
pub open spec fn table_start(chunk: Seq<ParsedMessage>) -> int {
    floor_bin(first_time(chunk), BIN_WIDTH_MS as int)
}

/// Number of time rows in a chunk's table.
pub open spec fn table_rows(chunk: Seq<ParsedMessage>) -> int {
    row_count(first_time(chunk), last_time(chunk), BIN_WIDTH_MS as int)
}

/// Decimal digit `d` (below ten) as a character.
pub open spec fn digit(d: int) -> char {
    seq!['0', '1', '2', '3', '4', '5', '6', '7', '8', '9'][d]
}

/// Decimal text of `n`, without leading zeros.
pub open spec fn decimal(n: nat) -> Seq<char>
    decreases n,
{
    if n < 10 {
        seq![digit(n as int)]
    } else {
        decimal(n / 10).push(digit((n % 10) as int))
    }
}

/// `secs`, a point, and `millis` (below a thousand) in three digits.
pub open spec fn fixed3(secs: nat, millis: int) -> Seq<char> {
    decimal(secs) + seq!['.', digit(millis / 100), digit((millis / 10) % 10), digit(millis % 10)]
}

/// Seconds with three decimals for a time in milliseconds.
pub open spec fn time_label(ms: nat) -> Seq<char> {
    fixed3(ms / 1000, (ms % 1000) as int)
}

/// Relies on std's `format!`: `{}` writes an integer in decimal, and `{:03}`
/// pads it with zeros to three digits.
#[verifier::external_body]
fn seconds_text(secs: u64, millis: u64) -> (r: String)
    requires
        millis < 1000,
    ensures
        r@ == fixed3(secs as nat, millis as int),
{
    format!("{}.{:03}", secs, millis)
}

/// The label of a row that starts at `ms` milliseconds: seconds, three decimals.
pub fn format_time(ms: u64) -> (r: String)
    ensures
        r@ == time_label(ms as nat),
{
    seconds_text(ms / 1000, ms % 1000)
}

/// Decimal text of `n`, padded with zeros to at least three digits.
pub open spec fn padded3(n: nat) -> Seq<char> {
    if n < 10 {
        seq!['0', '0'] + decimal(n)
    } else if n < 100 {
        seq!['0'] + decimal(n)
    } else {
        decimal(n)
    }
}

/// Relies on std's `format!`: `{:03}` writes an integer in decimal, padded
/// with zeros to three digits.
#[verifier::external_body]
fn chunk_file_text(chunk_idx: usize) -> (r: String)
    ensures
        r@ == "out_"@ + padded3(chunk_idx as nat) + ".csv"@,
{
    format!("out_{:03}.csv", chunk_idx)
}

/// Name of the file that holds the table of the chunk at `chunk_idx`.
pub fn output_file_name(chunk_idx: usize) -> (r: String)
    ensures
        r@ == "out_"@ + padded3(chunk_idx as nat) + ".csv"@,
{
    chunk_file_text(chunk_idx)
}

fn copy_row(row: &Vec<String>) -> (r: Vec<String>)
    ensures
        r@ == row@,
{
    let mut r: Vec<String> = Vec::new();
    for i in 0..row.len()
        invariant
            r@ == row@.take(i as int),
    {
        r.push(row[i].clone());
        proof {
            assert(r@ =~= row@.take(i + 1));
        }
    }
    proof {
        assert(row@.take(row.len() as int) =~= row@);
    }
    r
}

/// The column schema of the output tables: four parallel header rows whose
/// first cells are the row labels; column `c >= 1` describes one
/// (message, signal) pair.
pub struct TableBuilder {
    pub bus_row: Vec<String>,
    pub node_row: Vec<String>,
    pub message_row: Vec<String>,
    pub signal_row: Vec<String>,
}

impl TableBuilder {
    /// Number of columns, the label column included.
    pub open spec fn width(&self) -> int {
        self.bus_row.len() as int
    }

    /// The signal columns, in order (column `c >= 1` is at `c - 1`).
    pub open spec fn columns(&self) -> Seq<Column> {
        Seq::new((self.width() - 1) as nat, |c: int| (self.node_row@[c + 1]@, self.message_row@[c + 1]@, self.signal_row@[c + 1]@))
    }

    /// The header rows, bus row first.
    pub open spec fn header_rows(&self) -> Seq<Seq<String>> {
        seq![self.bus_row@, self.node_row@, self.message_row@, self.signal_row@]
    }

    /// Four rows of one width, labelled in their first cell, every signal
    /// column on the bus "Main", and no (message, signal) pair twice.
    pub open spec fn wf(&self) -> bool {
        &&& self.width() >= 1
        &&& self.node_row.len() == self.width()
        &&& self.message_row.len() == self.width()
        &&& self.signal_row.len() == self.width()
        &&& self.bus_row@[0]@ == "Bus"@
        &&& self.node_row@[0]@ == "Node"@
        &&& self.message_row@[0]@ == "Message"@
        &&& self.signal_row@[0]@ == "Signal"@
        &&& forall|c: int| 1 <= c < self.width() ==> (#[trigger] self.bus_row@[c])@ == "Main"@
        &&& forall|a: int, b: int| 1 <= a < b < self.width() ==>
            !((#[trigger] self.message_row@[a])@ == (#[trigger] self.message_row@[b])@
              && self.signal_row@[a]@ == self.signal_row@[b]@)
    }

    /// The column of a (message, signal) pair, if the schema has one.
    pub open spec fn column_of(&self, msg: Seq<char>, sig: Seq<char>) -> Option<int> {
        if exists|c: int| 1 <= c < self.width() && (#[trigger] self.message_row@[c])@ == msg && self.signal_row@[c]@ == sig {
            Some(choose|c: int| 1 <= c < self.width() && (#[trigger] self.message_row@[c])@ == msg && self.signal_row@[c]@ == sig)
        } else {
            None
        }
    }

    /// A builder with no header yet: four empty rows.
    pub fn new() -> (t: Self)
        ensures
            t.bus_row@.len() == 0,
            t.node_row@.len() == 0,
            t.message_row@.len() == 0,
            t.signal_row@.len() == 0,
    {
        TableBuilder { bus_row: Vec::new(), node_row: Vec::new(), message_row: Vec::new(), signal_row: Vec::new() }
    }

    /// A schema with the label column only.
    fn labels_only() -> (t: Self)
        ensures
            t.wf(),
            t.columns().len() == 0,
    {
        TableBuilder {
            bus_row: vec!["Bus".to_owned()],
            node_row: vec!["Node".to_owned()],
            message_row: vec!["Message".to_owned()],
            signal_row: vec!["Signal".to_owned()],
        }
    }

    /// Finds the column of a (message, signal) pair.
    pub fn find_column(&self, msg: &String, sig: &String) -> (r: Option<usize>)
        requires
            self.wf(),
        ensures
            r matches Some(c) ==> self.column_of(msg@, sig@) == Some(c as int),
            r is None ==> self.column_of(msg@, sig@) is None,
    {
        let n = self.message_row.len();
        let mut c: usize = 1;
        while c < n
            invariant
                self.wf(),
                n == self.width(),
                1 <= c <= n,
                forall|d: int| 1 <= d < c ==> !((#[trigger] self.message_row@[d])@ == msg@ && self.signal_row@[d]@ == sig@),
            decreases n - c,
        {
            if self.message_row[c] == *msg && self.signal_row[c] == *sig {
                proof {
                    let w = choose|d: int| 1 <= d < self.width() && (#[trigger] self.message_row@[d])@ == msg@ && self.signal_row@[d]@ == sig@;
                    assert(self.message_row@[c as int]@ == msg@);
                    if w != c {
                        if w < c {
                            assert(self.message_row@[w]@ == self.message_row@[c as int]@);
                        } else {
                            assert(self.message_row@[w]@ == self.message_row@[c as int]@);
                        }
                    }
                }
                return Some(c);
            }
            c = c + 1;
        }
        None
    }

    /// Builds the schema from the database's messages, visited in ascending
    /// id order and, within a message, signals in declared order.
    pub fn create_header_from(&mut self, defs: Vec<MessageDef>)
        ensures
            final(self).wf(),
            exists|order: Seq<MessageDef>|
                #[trigger] is_id_order(defs@, order) && final(self).columns() == first_occurrences(candidate_columns(order)),
    {
        let mut defs = defs;
        let ghost given = defs@;
        sort_by_id(&mut defs);
        self.assign_columns(&defs);
        proof {
            assert(is_id_order(given, defs@));
        }
    }

    /// Builds the schema from every message the bus database declares; see
    /// `create_header_from`.
    pub fn create_header(&mut self, parser: &can_decode::Parser)
        ensures
            final(self).wf(),
            exists|order: Seq<MessageDef>|
                #[trigger] is_declared_order(*parser, order) && final(self).columns() == first_occurrences(candidate_columns(order)),
    {
        let defs = message_defs(parser);
        let ghost listed = defs@;
        self.create_header_from(defs);
        proof {
            let order = choose|order: Seq<MessageDef>|
                #[trigger] is_id_order(listed, order) && final(self).columns() == first_occurrences(candidate_columns(order));
            assert(is_declared_order(*parser, order));
        }
    }

    /// Whether signal `j` of `m` lands in row `r`, column `c` of a table
    /// whose rows start at `start`.
    pub open spec fn sample_hits(&self, m: ParsedMessage, j: int, start: int, r: int, c: int) -> bool {
        &&& row_of(m.timestamp, start) == r
        &&& self.column_of(m.decoded.name@, m.decoded.signals@[j].name@) == Some(c)
    }

    /// The last of the first `n` signals of `m` that lands in row `r`, column `c`.
    pub open spec fn last_hit(&self, m: ParsedMessage, n: int, start: int, r: int, c: int) -> Option<int>
        decreases n,
    {
        if n <= 0 {
            None
        } else if self.sample_hits(m, n - 1, start, r, c) {
            Some(n - 1)
        } else {
            self.last_hit(m, n - 1, start, r, c)
        }
    }

    /// The sample (message index, signal index) that the cell at row `r`,
    /// column `c` holds after the first `k` messages of `chunk` and the first
    /// `j` signals of message `k`: the last one to land there.
    pub open spec fn source_upto(&self, chunk: Seq<ParsedMessage>, k: int, j: int, start: int, r: int, c: int) -> Option<(int, int)>
        decreases k, 0int,
    {
        if k < 0 {
            None
        } else if k < chunk.len() && self.last_hit(chunk[k], j, start, r, c) is Some {
            Some((k, self.last_hit(chunk[k], j, start, r, c)->Some_0))
        } else if k == 0 {
            None
        } else {
            self.source_upto(chunk, k - 1, chunk[k - 1].decoded.signals@.len() as int, start, r, c)
        }
    }

    /// The sample that the cell at row `r`, column `c` holds once all of
    /// `chunk` is written: the last in chunk order that lands there.
    pub open spec fn cell_source(&self, chunk: Seq<ParsedMessage>, start: int, r: int, c: int) -> Option<(int, int)> {
        self.source_upto(chunk, chunk.len() as int, 0, start, r, c)
    }

    /// Text of a cell whose sample is `src`: the sample's value, or empty.
    pub open spec fn source_text(chunk: Seq<ParsedMessage>, src: Option<(int, int)>) -> Seq<char> {
        match src {
            Some((k, j)) => chunk[k].decoded.signals@[j].value@,
            None => Seq::empty(),
        }
    }

    /// Materializes one time-sorted chunk as a table: the four header rows,
    /// then one row per time bin, labelled with its start in seconds; each
    /// cell holds the value of the last sample, in chunk order, that lands in
    /// its bin and column, or is empty. Samples whose pair has no column are
    /// skipped.
    pub fn build_table(&self, chunk: &Vec<ParsedMessage>) -> (table: Vec<Vec<String>>)
        requires
            self.wf(),
            sorted_by_time(chunk@),
        ensures
            table@.len() == 4 + table_rows(chunk@),
            forall|h: int| 0 <= h < 4 ==> (#[trigger] table@[h])@ == self.header_rows()[h],
            forall|r: int| 0 <= r < table_rows(chunk@) ==> (#[trigger] table@[4 + r])@.len() == self.width(),
            forall|r: int| 0 <= r < table_rows(chunk@) ==>
                (#[trigger] table@[4 + r])@[0]@ == time_label((table_start(chunk@) + r * BIN_WIDTH_MS) as nat),
            forall|r: int, c: int| 0 <= r < table_rows(chunk@) && 1 <= c < self.width() ==>
                (#[trigger] table@[4 + r]@[c])@ == Self::source_text(chunk@, self.cell_source(chunk@, table_start(chunk@), r, c)),
    {
        let n = chunk.len();
        let first = if n == 0 { 0 } else { chunk[0].timestamp };
        let last = if n == 0 { 0 } else { chunk[n - 1].timestamp };
        let (start, end, rows) = aligned_bounds(first, last, BIN_WIDTH_MS);
        let ghost st = start as int;
        let width = self.bus_row.len();
        proof {
            assert(end <= 0xFFFF_FFFF + 100);
            assert(rows < 0x1_0000_0000) by (nonlinear_arith)
                requires rows == (end - start) / 100 + 1, end <= 0xFFFF_FFFF + 100, start <= end;
        }
        let mut table: Vec<Vec<String>> = Vec::new();
        table.push(copy_row(&self.bus_row));
        table.push(copy_row(&self.node_row));
        table.push(copy_row(&self.message_row));
        table.push(copy_row(&self.signal_row));
        let nrows = rows as usize;
        for r in 0..nrows
            invariant
                self.wf(),
                width == self.width(),
                nrows == table_rows(chunk@),
                start == table_start(chunk@),
                end == ceil_bin(last_time(chunk@), BIN_WIDTH_MS as int),
                table@.len() == 4 + r,
                forall|h: int| 0 <= h < 4 ==> (#[trigger] table@[h])@ == self.header_rows()[h],
                forall|q: int| 0 <= q < r ==> (#[trigger] table@[4 + q])@.len() == width,
                forall|q: int| 0 <= q < r ==>
                    (#[trigger] table@[4 + q])@[0]@ == time_label((start + q * BIN_WIDTH_MS) as nat),
                forall|q: int, c: int| 0 <= q < r && 1 <= c < width ==> (#[trigger] table@[4 + q]@[c])@ == Seq::<char>::empty(),
        {
            proof {
                assert(r * 100 <= end - start) by (nonlinear_arith)
                    requires r < nrows, nrows == (end - start) / (BIN_WIDTH_MS as int) + 1, start <= end;
            }
            let mut row: Vec<String> = Vec::new();
            row.push(format_time(start + (r as u64) * (BIN_WIDTH_MS as u64)));
            for _c in 1..width
                invariant
                    row@.len() == _c,
                    row@[0]@ == time_label((start + r * BIN_WIDTH_MS) as nat),
                    forall|c: int| 1 <= c < row@.len() ==> (#[trigger] row@[c])@ == Seq::<char>::empty(),
            {
                row.push(String::new());
            }
            table.push(row);
        }
        let total = table.len();
        for k in 0..n
            invariant
                self.wf(),
                total == 4 + nrows,
                st == start,
                n == chunk@.len(),
                sorted_by_time(chunk@),
                width == self.width(),
                nrows == table_rows(chunk@),
                start == table_start(chunk@),
                end == ceil_bin(last_time(chunk@), BIN_WIDTH_MS as int),
                nrows == (end - start) / (BIN_WIDTH_MS as int) + 1,
                start <= first_time(chunk@),
                last_time(chunk@) <= end,
                table@.len() == 4 + nrows,
                forall|h: int| 0 <= h < 4 ==> (#[trigger] table@[h])@ == self.header_rows()[h],
                forall|q: int| 0 <= q < nrows ==> (#[trigger] table@[4 + q])@.len() == width,
                forall|q: int| 0 <= q < nrows ==>
                    (#[trigger] table@[4 + q])@[0]@ == time_label((start + q * BIN_WIDTH_MS) as nat),
                forall|q: int, c: int| 0 <= q < nrows && 1 <= c < width ==>
                    (#[trigger] table@[4 + q]@[c])@ == Self::source_text(chunk@, self.source_upto(chunk@, k as int, 0, st, q, c)),
        {
            let m = &chunk[k];
            let ts = m.timestamp;
            proof {
                assert(first_time(chunk@) <= ts <= last_time(chunk@));
                vstd::arithmetic::div_mod::lemma_div_is_ordered((ts - start) as int, (end - start) as int, 100);
                assert((ts - start) / (BIN_WIDTH_MS as int) < nrows);
            }
            let row = ((ts as u64 - start) / (BIN_WIDTH_MS as u64)) as usize;
            assert(row as int == (ts - start) / (BIN_WIDTH_MS as int));
            assert(row == row_of(ts, st));
            let nsig = m.decoded.signals.len();
            for j in 0..nsig
                invariant
                    self.wf(),
                    n == chunk@.len(),
                    k < n,
                    *m == chunk@[k as int],
                    nsig == m.decoded.signals@.len(),
                    row == row_of(ts, st),
                    ts == m.timestamp,
                    row < nrows,
                    total == 4 + nrows,
                    st == start,
                    width == self.width(),
                    table@.len() == 4 + nrows,
                    forall|h: int| 0 <= h < 4 ==> (#[trigger] table@[h])@ == self.header_rows()[h],
                    forall|q: int| 0 <= q < nrows ==> (#[trigger] table@[4 + q])@.len() == width,
                    forall|q: int| 0 <= q < nrows ==>
                        (#[trigger] table@[4 + q])@[0]@ == time_label((start + q * BIN_WIDTH_MS) as nat),
                    forall|q: int, c: int| 0 <= q < nrows && 1 <= c < width ==>
                        (#[trigger] table@[4 + q]@[c])@ == Self::source_text(chunk@, self.source_upto(chunk@, k as int, j as int, st, q, c)),
            {
                let sample = &m.decoded.signals[j];
                let found = self.find_column(&m.decoded.name, &sample.name);
                let ghost before = table@;
                match found {
                    Some(col) => {
                        table[4 + row][col] = sample.value.clone();
                    },
                    None => {},
                }
                proof {
                    assert forall|q: int, c: int| 0 <= q < nrows && 1 <= c < width implies
                        (#[trigger] table@[4 + q]@[c])@ == Self::source_text(chunk@, self.source_upto(chunk@, k as int, j + 1, st, q, c)) by {
                        let hit = self.sample_hits(*m, j as int, st, q, c);
                        assert(self.last_hit(*m, j + 1, st, q, c) == if hit { Some(j as int) } else { self.last_hit(*m, j as int, st, q, c) });
                        if !hit {
                            assert(self.source_upto(chunk@, k as int, j + 1, st, q, c) == self.source_upto(chunk@, k as int, j as int, st, q, c));
                            if found is Some {
                                assert(table@[4 + q]@[c] == before[4 + q]@[c]);
                            }
                        }
                    }
                }
            }
            proof {
                assert forall|q: int, c: int| 0 <= q < nrows && 1 <= c < width implies
                    self.source_upto(chunk@, k + 1, 0, st, q, c) == self.source_upto(chunk@, k as int, nsig as int, st, q, c) by {
                }
            }
        }
        table
    }

    /// Gives each (message, signal) pair of `defs`, visited in the order given
    /// and signals in declared order, a column the first time it is seen,
    /// replacing any schema there was.
    pub fn assign_columns(&mut self, defs: &Vec<MessageDef>)
        ensures
            final(self).wf(),
            final(self).columns() == first_occurrences(candidate_columns(defs@)),
    {
        *self = TableBuilder::labels_only();
        let ghost empty = self.columns();
        proof {
            assert(empty =~= Seq::<Column>::empty());
            assert(candidate_columns(defs@.take(0)) =~= Seq::<Column>::empty());
        }
        for i in 0..defs.len()
            invariant
                self.wf(),
                self.columns() == first_occurrences(candidate_columns(defs@.take(i as int))),
        {
            let m = &defs[i];
            let node = match &m.node {
                Some(n) => n.clone(),
                None => "N/A".to_owned(),
            };
            let ghost before = candidate_columns(defs@.take(i as int));
            proof {
                assert(defs@.take(i + 1).drop_last() =~= defs@.take(i as int));
                assert(candidate_columns(defs@.take(i + 1)) == before + message_columns(*m));
                assert(before + message_columns(*m).take(0) =~= before);
            }
            for j in 0..m.signals.len()
                invariant
                    self.wf(),
                    *m == defs@[i as int],
                    node@ == node_label(*m),
                    self.columns() == first_occurrences(before + message_columns(*m).take(j as int)),
            {
                let sig = &m.signals[j];
                let ghost cands = before + message_columns(*m).take(j as int);
                let ghost col: Column = (node@, m.name@, sig@);
                proof {
                    assert(message_columns(*m)[j as int] == col);
                    assert((before + message_columns(*m).take(j + 1)).drop_last() =~= cands);
                    assert((before + message_columns(*m).take(j + 1)).last() == col);
                }
                let found = self.find_column(&m.name, sig);
                let ghost cols = self.columns();
                if found.is_none() {
                    proof {
                        if has_key(cols, col) {
                            let k = choose|k: int| 0 <= k < cols.len() && (#[trigger] cols[k]).1 == col.1 && cols[k].2 == col.2;
                            assert(self.message_row@[k + 1]@ == m.name@);
                        }
                    }
                    self.bus_row.push("Main".to_owned());
                    self.node_row.push(node.clone());
                    self.message_row.push(m.name.clone());
                    self.signal_row.push(sig.clone());
                    proof {
                        assert(self.columns() =~= cols.push(col));
                    }
                } else {
                    proof {
                        let c = found.unwrap() as int;
                        assert(cols[c - 1].1 == col.1 && cols[c - 1].2 == col.2);
                        assert(has_key(cols, col));
                    }
                }
            }
            proof {
                assert(message_columns(*m).take(m.signals.len() as int) =~= message_columns(*m));
            }
        }
        proof {
            assert(defs@.take(defs.len() as int) =~= defs@);
        }
    }
}

/// Messages of `defs` with one id are one and the same message.
pub open spec fn ids_identify(defs: Seq<MessageDef>) -> bool {
    forall|x: MessageDef, y: MessageDef| defs.contains(x) && defs.contains(y) && x.id == y.id ==> x == y
}

proof fn lemma_id_order_unique(oa: Seq<MessageDef>, ob: Seq<MessageDef>)
    requires
        oa.to_multiset() == ob.to_multiset(),
        sorted_by_id(oa),
        sorted_by_id(ob),
        ids_identify(oa),
    ensures
        oa == ob,
    decreases oa.len(),
{
    broadcast use vstd::seq_lib::group_to_multiset_ensures;
    oa.to_multiset_ensures();
    ob.to_multiset_ensures();
    assert(oa.len() == ob.len());
    if oa.len() == 0 {
        assert(oa =~= ob);
    } else {
        let n = oa.len() - 1;
        let x = oa[n];
        let y = ob[n];
        assert(oa.contains(x));
        assert(ob.contains(y));
        assert(ob.to_multiset().count(x) > 0);
        assert(oa.to_multiset().count(y) > 0);
        let i = choose|i: int| 0 <= i < oa.len() && oa[i] == y;
        let j = choose|j: int| 0 <= j < ob.len() && ob[j] == x;
        assert(y.id <= x.id && x.id <= y.id);
        assert(x == y);
        assert(oa.remove(n) =~= oa.drop_last());
        assert(ob.remove(n) =~= ob.drop_last());
        let da = oa.drop_last();
        let db = ob.drop_last();
        assert forall|a: MessageDef, b: MessageDef| da.contains(a) && da.contains(b) && a.id == b.id implies a == b by {
            let ia = choose|k: int| 0 <= k < da.len() && da[k] == a;
            let ib = choose|k: int| 0 <= k < da.len() && da[k] == b;
            assert(da[ia] == oa[ia] && da[ib] == oa[ib]);
            assert(oa.contains(a) && oa.contains(b));
        }
        lemma_id_order_unique(da, db);
        assert(oa =~= da.push(x));
        assert(ob =~= db.push(y));
    }
}

/// In `messages`, one id names one message.
pub open spec fn ids_name_messages(messages: Multiset<MessageDef>) -> bool {
    forall|x: MessageDef, y: MessageDef| messages.count(x) > 0 && messages.count(y) > 0 && x.id == y.id ==> x == y
}

/// Column assignment is deterministic: any two ascending id orders of the
/// same messages, where one id names one message, are the same order and
/// give the same columns. So two runs over one database build one schema,
/// whatever order the database lists its messages in.
pub proof fn lemma_columns_deterministic(messages: Multiset<MessageDef>, order_a: Seq<MessageDef>, order_b: Seq<MessageDef>)
    requires
        ids_name_messages(messages),
        order_a.to_multiset() == messages,
        order_b.to_multiset() == messages,
        sorted_by_id(order_a),
        sorted_by_id(order_b),
    ensures
        order_a == order_b,
        first_occurrences(candidate_columns(order_a)) == first_occurrences(candidate_columns(order_b)),
{
    broadcast use vstd::seq_lib::group_to_multiset_ensures;
    assert forall|x: MessageDef, y: MessageDef| order_a.contains(x) && order_a.contains(y) && x.id == y.id implies x == y by {
        assert(messages.count(x) > 0);
        assert(messages.count(y) > 0);
    }
    lemma_id_order_unique(order_a, order_b);
}

/// `(k, j)` names a sample of `chunk`: signal `j` of message `k`.
pub open spec fn is_sample(chunk: Seq<ParsedMessage>, k: int, j: int) -> bool {
    0 <= k < chunk.len() && 0 <= j < chunk[k].decoded.signals@.len()
}

/// Sample `(k1, j1)` comes before sample `(k2, j2)` in chunk order.
pub open spec fn comes_before(k1: int, j1: int, k2: int, j2: int) -> bool {
    k1 < k2 || (k1 == k2 && j1 < j2)
}

impl TableBuilder {
    proof fn lemma_last_hit(&self, m: ParsedMessage, n: int, start: int, r: int, c: int)
        requires
            0 <= n <= m.decoded.signals@.len(),
        ensures
            match self.last_hit(m, n, start, r, c) {
                Some(j) => 0 <= j < n && self.sample_hits(m, j, start, r, c)
                    && forall|i: int| j < i < n ==> !self.sample_hits(m, i, start, r, c),
                None => forall|i: int| 0 <= i < n ==> !self.sample_hits(m, i, start, r, c),
            },
        decreases n,
    {
        if n > 0 {
            self.lemma_last_hit(m, n - 1, start, r, c);
        }
    }

    proof fn lemma_source_upto(&self, chunk: Seq<ParsedMessage>, k: int, j: int, start: int, r: int, c: int)
        requires
            0 <= k <= chunk.len(),
            k < chunk.len() ==> 0 <= j <= chunk[k].decoded.signals@.len(),
            k == chunk.len() ==> j == 0,
        ensures
            match self.source_upto(chunk, k, j, start, r, c) {
                Some((k1, j1)) => is_sample(chunk, k1, j1) && comes_before(k1, j1, k, j)
                    && self.sample_hits(chunk[k1], j1, start, r, c)
                    && forall|k2: int, j2: int| is_sample(chunk, k2, j2) && comes_before(k1, j1, k2, j2)
                        && comes_before(k2, j2, k, j) ==> !self.sample_hits(chunk[k2], j2, start, r, c),
                None => forall|k2: int, j2: int| is_sample(chunk, k2, j2) && comes_before(k2, j2, k, j)
                    ==> !self.sample_hits(chunk[k2], j2, start, r, c),
            },
        decreases k,
    {
        if k < chunk.len() {
            self.lemma_last_hit(chunk[k], j, start, r, c);
        }
        if k > 0 && !(k < chunk.len() && self.last_hit(chunk[k], j, start, r, c) is Some) {
            self.lemma_source_upto(chunk, k - 1, chunk[k - 1].decoded.signals@.len() as int, start, r, c);
        }
    }

    /// Last write wins: when a sample lands in row `r`, column `c` and no
    /// later sample of the chunk does, the cell holds that sample.
    pub proof fn lemma_last_write_wins(&self, chunk: Seq<ParsedMessage>, start: int, r: int, c: int, k: int, j: int)
        requires
            is_sample(chunk, k, j),
            self.sample_hits(chunk[k], j, start, r, c),
            forall|k2: int, j2: int| is_sample(chunk, k2, j2) && comes_before(k, j, k2, j2)
                ==> !self.sample_hits(chunk[k2], j2, start, r, c),
        ensures
            self.cell_source(chunk, start, r, c) == Some((k, j)),
            Self::source_text(chunk, self.cell_source(chunk, start, r, c)) == chunk[k].decoded.signals@[j].value@,
    {
        self.lemma_source_upto(chunk, chunk.len() as int, 0, start, r, c);
    }

    /// Every non-empty cell comes from one sample of the chunk, which lands
    /// in that cell's row (by its timestamp) and column (by its message and
    /// signal names); and no sample fills two cells.
    pub proof fn lemma_cells_trace_to_samples(&self, chunk: Seq<ParsedMessage>, start: int, r: int, c: int, r2: int, c2: int)
        ensures
            Self::source_text(chunk, self.cell_source(chunk, start, r, c)).len() > 0
                ==> self.cell_source(chunk, start, r, c) is Some,
            match self.cell_source(chunk, start, r, c) {
                Some((k, j)) => is_sample(chunk, k, j)
                    && row_of(chunk[k].timestamp, start) == r
                    && self.column_of(chunk[k].decoded.name@, chunk[k].decoded.signals@[j].name@) == Some(c)
                    && Self::source_text(chunk, self.cell_source(chunk, start, r, c)) == chunk[k].decoded.signals@[j].value@,
                None => true,
            },
            self.cell_source(chunk, start, r, c) is Some
                && self.cell_source(chunk, start, r, c) == self.cell_source(chunk, start, r2, c2)
                ==> r == r2 && c == c2,
    {
        self.lemma_source_upto(chunk, chunk.len() as int, 0, start, r, c);
        self.lemma_source_upto(chunk, chunk.len() as int, 0, start, r2, c2);
    }
}

} // verus!
