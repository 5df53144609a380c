//! Quoted CSV rendering and the per-payment evaluation report.
use vstd::prelude::*;
use vstd::std_specs::iter::IteratorSpec;
use crate::evaluation::{Evaluation, RunResult, Status, Outcome, PaymentResult, FORMAT_VERSION, key_order};
use crate::network::texts;
use crate::text::{decimal, decimal_text, copy_string, text};

verus! {

/// `s` with every double quote doubled.
pub open spec fn escaped(s: Seq<char>) -> Seq<char>
    decreases s.len(),
{
    if s.len() == 0 {
        Seq::empty()
    } else {
        escaped(s.drop_last()) + if s.last() == '"' {
            seq!['"', '"']
        } else {
            seq![s.last()]
        }
    }
}

pub open spec fn quoted(s: Seq<char>) -> Seq<char> {
    seq!['"'] + escaped(s) + seq!['"']
}

/// The quoted cells of a row, separated by commas.
pub open spec fn csv_fields(row: Seq<Seq<char>>) -> Seq<char>
    decreases row.len(),
{
    if row.len() == 0 {
        Seq::empty()
    } else if row.len() == 1 {
        quoted(row[0])
    } else {
        csv_fields(row.drop_last()) + seq![','] + quoted(row.last())
    }
}

pub open spec fn csv_line(row: Seq<Seq<char>>) -> Seq<char> {
    csv_fields(row) + seq!['\n']
}

/// The rows, one line each.
pub open spec fn csv_text(rows: Seq<Seq<Seq<char>>>) -> Seq<char>
    decreases rows.len(),
{
    if rows.len() == 0 {
        Seq::empty()
    } else {
        csv_text(rows.drop_last()) + csv_line(rows.last())
    }
}

/// Append `cell` in double quotes, its quotes doubled.
pub fn push_quoted(out: &mut String, cell: &String)
    ensures
        final(out)@ == old(out)@ + quoted(cell@),
{
    let s = cell.as_str();
    let n = s.unicode_len();
    out.append("\"");
    proof {
        reveal_strlit("\"");
        reveal_strlit("\"\"");
    }
    let mut i: usize = 0;
    while i < n
        invariant
            n == s@.len(),
            s@ == cell@,
            i <= n,
            out@ == old(out)@ + seq!['"'] + escaped(s@.take(i as int)),
        decreases n - i,
    {
        let c = s.get_char(i);
        proof {
            reveal_strlit("\"\"");
        }
        if c == '"' {
            out.append("\"\"");
        } else {
            out.append(s.substring_char(i, i + 1));
        }
        proof {
            assert(s@.take(i + 1).drop_last() =~= s@.take(i as int));
            assert(s@.subrange(i as int, i + 1) =~= seq![c]);
        }
        i += 1;
    }
    out.append("\"");
    proof {
        assert(s@.take(n as int) =~= s@);
    }
}

/// Append one CSV line.
pub fn push_row(out: &mut String, row: &Vec<String>)
    ensures
        final(out)@ == old(out)@ + csv_line(texts(row@)),
{
    let ghost cells = texts(row@);
    let mut i: usize = 0;
    while i < row.len()
        invariant
            cells == texts(row@),
            i <= row@.len(),
            out@ == old(out)@ + csv_fields(cells.take(i as int)),
        decreases row@.len() - i,
    {
        if i > 0 {
            out.append(",");
            proof {
                reveal_strlit(",");
            }
        }
        push_quoted(out, &row[i]);
        proof {
            assert(cells.take(i + 1).drop_last() =~= cells.take(i as int));
            assert(cells.take(i + 1).last() == row@[i as int]@);
            if i == 0 {
                assert(csv_fields(cells.take(1)) == quoted(row@[0]@));
            }
        }
        i += 1;
    }
    out.append("\n");
    proof {
        reveal_strlit("\n");
        assert(cells.take(row@.len() as int) =~= cells);
    }
}

pub open spec fn status_text(s: Status) -> Seq<char> {
    match s {
        Status::Complete => "complete"@,
        Status::Censored => "censored"@,
        Status::Error { .. } => "error"@,
    }
}

pub fn status_name(s: &Status) -> (r: String)
    ensures
        r@ == status_text(*s),
{
    match s {
        Status::Complete => text("complete"),
        Status::Censored => text("censored"),
        Status::Error { .. } => text("error"),
    }
}

pub open spec fn bool_text(b: bool) -> Seq<char> {
    if b {
        "true"@
    } else {
        "false"@
    }
}

pub fn bool_name(b: bool) -> (r: String)
    ensures
        r@ == bool_text(b),
{
    if b {
        text("true")
    } else {
        text("false")
    }
}

/// A number, or an empty cell for none.
pub open spec fn optional_text(v: Option<u128>) -> Seq<char> {
    match v {
        Some(x) => decimal(x as nat),
        None => Seq::empty(),
    }
}

pub fn optional_cell(v: Option<u128>) -> (r: String)
    ensures
        r@ == optional_text(v),
{
    match v {
        Some(x) => decimal_text(x),
        None => String::new(),
    }
}

/// The outcome as its debug form prints it.
pub open spec fn outcome_text(o: Outcome) -> Seq<char> {
    match o {
        Outcome::Pending => "Pending"@,
        Outcome::Rejected => "Rejected"@,
        Outcome::Expired => "Expired"@,
        Outcome::Completed { late, elapsed_minutes } => "Completed { late: "@ + bool_text(late)
            + ", elapsed_minutes: "@ + decimal(elapsed_minutes as nat) + " }"@,
    }
}

pub fn outcome_name(o: &Outcome) -> (r: String)
    ensures
        r@ == outcome_text(*o),
{
    match o {
        Outcome::Pending => text("Pending"),
        Outcome::Rejected => text("Rejected"),
        Outcome::Expired => text("Expired"),
        Outcome::Completed { late, elapsed_minutes } => {
            let mut s = text("Completed { late: ");
            s.append(bool_name(*late).as_str());
            s.append(", elapsed_minutes: ");
            crate::text::push_decimal(&mut s, *elapsed_minutes);
            s.append(" }");
            s
        },
    }
}

pub open spec fn payments_header() -> Seq<Seq<char>> {
    seq![
        "version"@,
        "world"@,
        "seed"@,
        "strategy"@,
        "run_status"@,
        "sequence"@,
        "payment_id"@,
        "sender"@,
        "receiver"@,
        "amount_cents"@,
        "arrival"@,
        "deadline"@,
        "terminal_at"@,
        "outcome"@,
        "ever_routed"@,
        "sla_failed"@,
        "actual_fee_cents"@,
        "departed_hops"@,
    ]
}

/// One payment's row of the per-payment report.
pub open spec fn payment_row(world: Seq<char>, seed: u64, run: RunResult, p: PaymentResult) -> Seq<Seq<char>> {
    seq![
        decimal(FORMAT_VERSION as nat),
        world,
        decimal(seed as nat),
        run.strategy@,
        status_text(run.status),
        decimal(p.sequence as nat),
        p.payment.id@,
        p.payment.sender@,
        p.payment.receiver@,
        decimal(p.payment.amount_cents as nat),
        decimal(p.arrived_at as nat),
        decimal(p.deadline as nat),
        optional_text(p.terminal_at),
        outcome_text(p.outcome),
        bool_text(p.ever_routed),
        bool_text(p.sla_failed),
        decimal(p.actual_fee_cents as nat),
        decimal(p.departed_hops as nat),
    ]
}

/// The rows of one run, its payments in the key order `ks`.
pub open spec fn run_rows(world: Seq<char>, seed: u64, run: RunResult, ks: Seq<u128>) -> Seq<Seq<Seq<char>>> {
    Seq::new(ks.len(), |k: int| payment_row(world, seed, run, run.payments@[ks[k]]))
}

fn payment_cells(world: &String, seed: u64, run: &RunResult, p: &PaymentResult) -> (r: Vec<String>)
    ensures
        texts(r@) == payment_row(world@, seed, *run, *p),
{
    let mut row: Vec<String> = Vec::new();
    row.push(decimal_text(FORMAT_VERSION as u128));
    row.push(copy_string(world));
    row.push(decimal_text(seed as u128));
    row.push(copy_string(&run.strategy));
    row.push(status_name(&run.status));
    row.push(decimal_text(p.sequence));
    row.push(copy_string(&p.payment.id));
    row.push(copy_string(&p.payment.sender));
    row.push(copy_string(&p.payment.receiver));
    row.push(decimal_text(p.payment.amount_cents as u128));
    row.push(decimal_text(p.arrived_at));
    row.push(decimal_text(p.deadline));
    row.push(optional_cell(p.terminal_at));
    row.push(outcome_name(&p.outcome));
    row.push(bool_name(p.ever_routed));
    row.push(bool_name(p.sla_failed));
    row.push(decimal_text(p.actual_fee_cents));
    row.push(decimal_text(p.departed_hops));
    assert(texts(row@) =~= payment_row(world@, seed, *run, *p));
    row
}

fn header_row() -> (r: Vec<String>)
    ensures
        texts(r@) == payments_header(),
{
    let mut row: Vec<String> = Vec::new();
    row.push(text("version"));
    row.push(text("world"));
    row.push(text("seed"));
    row.push(text("strategy"));
    row.push(text("run_status"));
    row.push(text("sequence"));
    row.push(text("payment_id"));
    row.push(text("sender"));
    row.push(text("receiver"));
    row.push(text("amount_cents"));
    row.push(text("arrival"));
    row.push(text("deadline"));
    row.push(text("terminal_at"));
    row.push(text("outcome"));
    row.push(text("ever_routed"));
    row.push(text("sla_failed"));
    row.push(text("actual_fee_cents"));
    row.push(text("departed_hops"));
    assert(texts(row@) =~= payments_header());
    row
}

/// Append one run's payment rows, in key order.
fn push_run_rows(out: &mut String, world: &String, seed: u64, run: &RunResult)
    ensures
        exists|ks: Seq<u128>|
            #[trigger] key_order(run.payments@, ks) && final(out)@ == old(out)@ + csv_text(run_rows(world@, seed, *run, ks)),
{
    broadcast use vstd::std_specs::btree::group_btree_axioms;

    proof {
        crate::order::lemma_u128_keys_ordered();
    }
    let n = run.payments.len();
    let keys = run.payments.keys();
    let ghost whole = keys.remaining();
    let ghost ks = whole.unref();
    proof {
        assert(ks.to_set() == run.payments@.dom());
        assert(ks.len() == n);
    }
    for k in it: keys
        invariant
            it.seq() == whole,
            ks == whole.unref(),
            ks.to_set() == run.payments@.dom(),
            ks.len() == n,
            out@ == old(out)@ + csv_text(run_rows(world@, seed, *run, ks.take(it.index() as int))),
    {
        let ghost i = it.index();
        proof {
            assert(ks[i as int] == *k);
            assert(run.payments@.dom().contains(*k));
        }
        let p = run.payments.get(k).unwrap();
        let cells = payment_cells(world, seed, run, p);
        push_row(out, &cells);
        proof {
            let before = run_rows(world@, seed, *run, ks.take(i as int));
            let after = run_rows(world@, seed, *run, ks.take(i + 1));
            assert(after.drop_last() =~= before);
            assert(after.last() == payment_row(world@, seed, *run, run.payments@[*k]));
        }
    }
    proof {
        assert(ks.take(ks.len() as int) =~= ks);
        assert(ks.no_duplicates());
        crate::order::lemma_u128_refs_increasing(whole);
        assert(key_order(run.payments@, ks));
    }
}

/// All rows of the per-payment report after the header: cases in order, runs in
/// order, each run's payments in key order `kss[c][r]`.
pub open spec fn payment_rows_upto(ev: Evaluation, kss: Seq<Seq<Seq<u128>>>, c: int) -> Seq<Seq<Seq<char>>>
    decreases c,
{
    if c <= 0 {
        Seq::empty()
    } else {
        payment_rows_upto(ev, kss, c - 1) + case_rows(ev, kss, c - 1, ev.cases@[c - 1].runs@.len() as int)
    }
}

pub open spec fn case_rows(ev: Evaluation, kss: Seq<Seq<Seq<u128>>>, c: int, r: int) -> Seq<Seq<Seq<char>>>
    decreases r,
{
    if r <= 0 {
        Seq::empty()
    } else {
        let case = ev.cases@[c];
        case_rows(ev, kss, c, r - 1) + run_rows(case.world@, case.seed, case.runs@[r - 1], kss[c][r - 1])
    }
}

impl Evaluation {
    /// One row per payment of every run, under a header: the run's identity and
    /// status, then the payment's instruction, times, outcome, fee and hops.
    pub fn payments_csv(&self) -> (r: String)
        ensures
            exists|kss: Seq<Seq<Seq<u128>>>|
                {
                    &&& kss.len() == self.cases@.len()
                    &&& forall|c: int|
                        0 <= c < kss.len() ==> (#[trigger] kss[c]).len() == self.cases@[c].runs@.len() && forall|k: int|
                            0 <= k < kss[c].len() ==> key_order(self.cases@[c].runs@[k].payments@, #[trigger] kss[c][k])
                    &&& r@ == csv_line(payments_header()) + csv_text(payment_rows_upto(*self, kss, self.cases@.len() as int))
                },
    {
        let mut out = String::new();
        let header = header_row();
        push_row(&mut out, &header);
        let ghost mut kss: Seq<Seq<Seq<u128>>> = Seq::empty();
        let mut c: usize = 0;
        while c < self.cases.len()
            invariant
                c <= self.cases@.len(),
                kss.len() == c,
                forall|x: int|
                    0 <= x < c ==> (#[trigger] kss[x]).len() == self.cases@[x].runs@.len() && forall|k: int|
                        0 <= k < kss[x].len() ==> key_order(self.cases@[x].runs@[k].payments@, #[trigger] kss[x][k]),
                out@ == csv_line(payments_header()) + csv_text(payment_rows_upto(*self, kss, c as int)),
            decreases self.cases@.len() - c,
        {
            let case = &self.cases[c];
            let ghost mut row_keys: Seq<Seq<u128>> = Seq::empty();
            let ghost start = out@;
            let mut k: usize = 0;
            while k < case.runs.len()
                invariant
                    c < self.cases@.len(),
                    case == &self.cases@[c as int],
                    k <= case.runs@.len(),
                    kss.len() == c,
                    row_keys.len() == k,
                    forall|q: int| 0 <= q < k ==> key_order(case.runs@[q].payments@, #[trigger] row_keys[q]),
                    out@ == start + csv_text(case_rows(*self, kss.push(row_keys), c as int, k as int)),
                decreases case.runs@.len() - k,
            {
                let ghost before_out = out@;
                push_run_rows(&mut out, &case.world, case.seed, &case.runs[k]);
                proof {
                    let ks = choose|ks: Seq<u128>|
                        #[trigger] key_order(case.runs@[k as int].payments@, ks) && out@ == before_out + csv_text(run_rows(case.world@, case.seed, case.runs@[k as int], ks));
                    let old_keys = row_keys;
                    row_keys = row_keys.push(ks);
                    assert forall|q: int| 0 <= q < k implies #[trigger] kss.push(row_keys)[c as int][q] == kss.push(old_keys)[c as int][q] by {
                        assert(row_keys[q] == old_keys[q]);
                    }
                    lemma_case_rows_prefix(*self, kss.push(row_keys), kss.push(old_keys), c as int, k as int);
                    lemma_csv_text_append(
                        case_rows(*self, kss.push(old_keys), c as int, k as int),
                        run_rows(case.world@, case.seed, case.runs@[k as int], ks),
                    );
                }
                k += 1;
            }
            proof {
                let old_kss = kss;
                kss = kss.push(row_keys);
                assert(payment_rows_upto(*self, kss, c as int) == payment_rows_upto(*self, old_kss, c as int)) by {
                    lemma_rows_prefix(*self, kss, old_kss, c as int);
                }
                lemma_csv_text_append(payment_rows_upto(*self, old_kss, c as int), case_rows(*self, kss, c as int, case.runs@.len() as int));
                assert forall|x: int|
                    0 <= x < c + 1 implies (#[trigger] kss[x]).len() == self.cases@[x].runs@.len() && forall|q: int|
                        0 <= q < kss[x].len() ==> key_order(self.cases@[x].runs@[q].payments@, #[trigger] kss[x][q]) by {
                    if x < c {
                        assert(kss[x] == old_kss[x]);
                    }
                }
            }
            c += 1;
        }
        out
    }
}

/// Text of concatenated rows is the concatenated text.
pub proof fn lemma_csv_text_append(a: Seq<Seq<Seq<char>>>, b: Seq<Seq<Seq<char>>>)
    ensures
        csv_text(a + b) == csv_text(a) + csv_text(b),
    decreases b.len(),
{
    if b.len() == 0 {
        assert(a + b =~= a);
    } else {
        lemma_csv_text_append(a, b.drop_last());
        assert((a + b).drop_last() =~= a + b.drop_last());
        assert((a + b).last() == b.last());
    }
}

proof fn lemma_case_rows_prefix(ev: Evaluation, k1: Seq<Seq<Seq<u128>>>, k2: Seq<Seq<Seq<u128>>>, c: int, r: int)
    requires
        0 <= c < k1.len(),
        c < k2.len(),
        forall|q: int| 0 <= q < r ==> #[trigger] k1[c][q] == k2[c][q],
    ensures
        case_rows(ev, k1, c, r) == case_rows(ev, k2, c, r),
    decreases r,
{
    if r > 0 {
        lemma_case_rows_prefix(ev, k1, k2, c, r - 1);
    }
}

proof fn lemma_rows_prefix(ev: Evaluation, k1: Seq<Seq<Seq<u128>>>, k2: Seq<Seq<Seq<u128>>>, c: int)
    requires
        c <= k2.len(),
        c <= k1.len(),
        forall|x: int| 0 <= x < c ==> #[trigger] k1[x] == k2[x],
    ensures
        payment_rows_upto(ev, k1, c) == payment_rows_upto(ev, k2, c),
    decreases c,
{
    if c > 0 {
        lemma_rows_prefix(ev, k1, k2, c - 1);
        lemma_case_rows_prefix(ev, k1, k2, c - 1, ev.cases@[c - 1].runs@.len() as int);
    }
}

} // verus!
