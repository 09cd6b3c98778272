//! A tiny single-file relational store: rows keyed by a 32-bit id are kept in
//! a disk-backed B+ tree of fixed-size pages.  The engine itself — page codec,
//! pager cache, node operations, insert with splitting, ordered scans — is
//! verified; the thin command-line driver around it performs the file and
//! terminal I/O and hands the engine plain bytes.
//!
//! This root module holds the statement layer: parsing one command line into
//! a statement or meta-command and running it against the table.

pub mod btree;
pub mod cursor;
pub mod error;
pub mod pager;
pub mod row;
pub mod table;

use crate::btree::node::NodeV;
use crate::error::{DbError, ExecErr, MetaCmdErr, PrepareErr};
use crate::row::Row;
use crate::table::{table_keys, Table};
use vstd::prelude::*;
use vstd::string::StringSliceAdditionalSpecFns;

verus! {

/// A prepared statement.
pub enum Statement {
    Insert(Row),
    Select,
}

/// A recognized meta-command; the driver carries it out.
pub enum MetaCmd {
    Exit,
    Btree,
    Constants,
}

/// What running one command produced; the driver prints it.
pub enum Reply {
    Executed,
    Rows(Vec<Row>),
    Tree(String),
    Constants,
    Exit,
}

/// ASCII whitespace, as the statement grammar knows it.
pub open spec fn is_ws(b: u8) -> bool {
    b == 32 || b == 9 || b == 10 || b == 13 || b == 11 || b == 12
}

/// `p` is a prefix of `s`.
pub open spec fn is_prefix(s: Seq<u8>, p: Seq<u8>) -> bool {
    s.len() >= p.len() && s.subrange(0, p.len() as int) == p
}

/// The keyword opening an insert statement.
pub open spec fn insert_kw() -> Seq<u8> {
    seq![105u8, 110u8, 115u8, 101u8, 114u8, 116u8]
}

/// The keyword opening a select statement.
pub open spec fn select_kw() -> Seq<u8> {
    seq![115u8, 101u8, 108u8, 101u8, 99u8, 116u8]
}

/// Every byte is a decimal digit, and there is at least one.
pub open spec fn all_digits(s: Seq<u8>) -> bool {
    s.len() > 0 && forall|i: int| 0 <= i < s.len() ==> 48 <= #[trigger] s[i] <= 57
}

/// The value of a run of decimal digits.
pub open spec fn digits_val(s: Seq<u8>) -> nat
    decreases s.len(),
{
    if s.len() == 0 {
        0
    } else {
        digits_val(s.drop_last()) * 10 + (s.last() - 48) as nat
    }
}

/// Powers of ten.
pub open spec fn pow10(n: nat) -> nat
    decreases n,
{
    if n == 0 {
        1
    } else {
        10 * pow10((n - 1) as nat)
    }
}

/// A digit run's value is below `pow10` of its length.
proof fn lemma_digits_val_upper(s: Seq<u8>)
    requires
        forall|i: int| 0 <= i < s.len() ==> 48 <= #[trigger] s[i] <= 57,
    ensures
        digits_val(s) < pow10(s.len()),
    decreases s.len(),
{
    if s.len() == 0 {
    } else {
        lemma_digits_val_upper(s.drop_last());
    }
}

/// A digit run starting with a nonzero digit is at least `pow10` of one
/// less than its length.
proof fn lemma_digits_val_lower(s: Seq<u8>)
    requires
        all_digits(s),
        s[0] >= 49,
    ensures
        digits_val(s) >= pow10((s.len() - 1) as nat),
    decreases s.len(),
{
    if s.len() == 1 {
    } else {
        assert(s.drop_last()[0] == s[0]);
        lemma_digits_val_lower(s.drop_last());
    }
}

/// Leading zeroes do not change a digit run's value.
proof fn lemma_digits_val_leading_zero(s: Seq<u8>)
    requires
        s.len() > 0,
        s[0] == 48,
    ensures
        digits_val(s) == digits_val(s.drop_first()),
    decreases s.len(),
{
    if s.len() == 1 {
        assert(s.last() == 48);
        assert(s.drop_last().len() == 0);
        assert(digits_val(s) == digits_val(s.drop_last()) * 10 + (s.last() - 48) as nat);
        assert(digits_val(s) == 0);
        assert(s.drop_first().len() == 0);
        assert(digits_val(s.drop_first()) == 0);
    } else {
        assert(s.drop_last()[0] == s[0]);
        assert(s.drop_last().len() == s.len() - 1);
        lemma_digits_val_leading_zero(s.drop_last());
        assert(s.drop_last().drop_first() =~= s.drop_first().drop_last());
        assert(s.drop_first().len() == s.len() - 1);
        assert(s.drop_first().last() == s.last());
        assert(digits_val(s) == digits_val(s.drop_last()) * 10 + (s.last() - 48) as nat);
        assert(digits_val(s.drop_first()) == digits_val(s.drop_first().drop_last()) * 10 + (
        s.drop_first().last() - 48) as nat);
        assert(digits_val(s.drop_first().drop_last()) == digits_val(s.drop_last().drop_first()));
    }
}

/// Does `s` start with `p`?
fn bytes_starts_with(s: &[u8], p: &[u8]) -> (r: bool)
    ensures
        r == is_prefix(s@, p@),
{
    if s.len() < p.len() {
        proof {
            assert(!is_prefix(s@, p@));
        }
        return false;
    }
    let mut i: usize = 0;
    while i < p.len()
        invariant
            i <= p@.len() <= s@.len(),
            forall|k: int| 0 <= k < i ==> s@[k] == p@[k],
        decreases p@.len() - i,
    {
        if s[i] != p[i] {
            proof {
                assert(s@.subrange(0, p@.len() as int)[i as int] != p@[i as int]);
            }
            return false;
        }
        i = i + 1;
    }
    proof {
        assert(s@.subrange(0, p@.len() as int) =~= p@);
    }
    true
}

/// The tokens of the input left of `rest`, with `cur` the (whitespace-free)
/// run read so far: whitespace closes the current token, any other byte
/// extends it, and the end of input closes a last non-empty token.
pub open spec fn spec_tokens_from(cur: Seq<u8>, rest: Seq<u8>) -> Seq<Seq<u8>>
    decreases rest.len(),
{
    if rest.len() == 0 {
        if cur.len() == 0 {
            Seq::empty()
        } else {
            seq![cur]
        }
    } else if is_ws(rest[0]) {
        (if cur.len() == 0 {
            Seq::<Seq<u8>>::empty()
        } else {
            seq![cur]
        }) + spec_tokens_from(Seq::empty(), rest.drop_first())
    } else {
        spec_tokens_from(cur.push(rest[0]), rest.drop_first())
    }
}

/// The whitespace-separated tokens of a line: the maximal runs of
/// non-whitespace bytes, in order.
pub open spec fn spec_tokens(s: Seq<u8>) -> Seq<Seq<u8>> {
    spec_tokens_from(Seq::empty(), s)
}

/// The views of a run of byte tokens.
pub open spec fn toks_view(ts: Seq<Vec<u8>>) -> Seq<Seq<u8>> {
    ts.map_values(|t: Vec<u8>| t@)
}

/// Split a line into its whitespace-separated tokens.  Every token handed
/// back is non-empty and free of whitespace.
fn tokenize(s: &[u8]) -> (r: Vec<Vec<u8>>)
    ensures
        toks_view(r@) == spec_tokens(s@),
        forall|t: int| 0 <= t < r@.len() ==> (#[trigger] r@[t])@.len() > 0,
        forall|t: int, k: int| 0 <= t < r@.len() && 0 <= k < r@[t]@.len() ==> !is_ws(
            #[trigger] r@[t]@[k],
        ),
{
    let mut tokens: Vec<Vec<u8>> = Vec::new();
    let mut cur: Vec<u8> = Vec::new();
    let mut i: usize = 0;
    proof {
        assert(toks_view(tokens@) =~= Seq::<Seq<u8>>::empty());
        assert(cur@ =~= Seq::<u8>::empty());
        assert(s@.skip(0) =~= s@);
        assert(Seq::<Seq<u8>>::empty() + spec_tokens_from(Seq::<u8>::empty(), s@)
            =~= spec_tokens_from(Seq::<u8>::empty(), s@));
    }
    while i < s.len()
        invariant
            i <= s@.len(),
            toks_view(tokens@) + spec_tokens_from(cur@, s@.skip(i as int)) == spec_tokens(s@),
            forall|t: int| 0 <= t < tokens@.len() ==> (#[trigger] tokens@[t])@.len() > 0,
            forall|t: int, k: int| 0 <= t < tokens@.len() && 0 <= k < tokens@[t]@.len() ==> !is_ws(
                #[trigger] tokens@[t]@[k],
            ),
            forall|k: int| 0 <= k < cur@.len() ==> !is_ws(#[trigger] cur@[k]),
        decreases s@.len() - i,
    {
        let ghost rest = s@.skip(i as int);
        let ghost toks_pre = toks_view(tokens@);
        let ghost cur_pre = cur@;
        let b = s[i];
        proof {
            assert(rest[0] == b);
            assert(rest.drop_first() =~= s@.skip(i + 1));
        }
        let ws = b == 32 || b == 9 || b == 10 || b == 13 || b == 11 || b == 12;
        if ws {
            if cur.len() > 0 {
                tokens.push(cur);
                cur = Vec::new();
            }
            proof {
                assert(cur@ =~= Seq::<u8>::empty());
                if cur_pre.len() > 0 {
                    assert(toks_view(tokens@) =~= toks_pre + seq![cur_pre]);
                    assert(toks_pre + (seq![cur_pre] + spec_tokens_from(
                        Seq::empty(),
                        rest.drop_first(),
                    )) =~= (toks_pre + seq![cur_pre]) + spec_tokens_from(
                        Seq::empty(),
                        rest.drop_first(),
                    ));
                } else {
                    assert(toks_pre + (Seq::<Seq<u8>>::empty() + spec_tokens_from(
                        Seq::empty(),
                        rest.drop_first(),
                    )) =~= toks_pre + spec_tokens_from(Seq::empty(), rest.drop_first()));
                }
            }
        } else {
            cur.push(b);
            proof {
                assert(cur@ == cur_pre.push(b));
            }
        }
        i = i + 1;
    }
    proof {
        assert(s@.skip(s@.len() as int) =~= Seq::<u8>::empty());
    }
    let ghost toks_pre = toks_view(tokens@);
    let ghost cur_pre = cur@;
    if cur.len() > 0 {
        tokens.push(cur);
        proof {
            assert(toks_view(tokens@) =~= toks_pre + seq![cur_pre]);
        }
    } else {
        proof {
            assert(toks_pre + Seq::<Seq<u8>>::empty() =~= toks_pre);
        }
    }
    tokens
}

/// Parse a run of decimal digits into a 32-bit value.  Succeeds exactly
/// when the token is all digits and the value fits.
fn parse_decimal(tok: &[u8]) -> (r: Option<u32>)
    ensures
        r is Some <==> (all_digits(tok@) && digits_val(tok@) <= u32::MAX),
        r matches Some(v) ==> v == digits_val(tok@),
{
    if tok.len() == 0 {
        return None;
    }
    let mut i: usize = 0;
    while i < tok.len()
        invariant
            i <= tok@.len(),
            forall|k: int| 0 <= k < i ==> 48 <= #[trigger] tok@[k] <= 57,
        decreases tok@.len() - i,
    {
        if tok[i] < 48 || tok[i] > 57 {
            return None;
        }
        i = i + 1;
    }
    // Skip leading zeroes; they carry no value.
    proof {
        assert(tok@.subrange(0, tok@.len() as int) =~= tok@);
    }
    let mut start: usize = 0;
    while start < tok.len() && tok[start] == 48
        invariant
            start <= tok@.len(),
            all_digits(tok@),
            digits_val(tok@.subrange(start as int, tok@.len() as int)) == digits_val(tok@),
        decreases tok@.len() - start,
    {
        proof {
            let rest = tok@.subrange(start as int, tok@.len() as int);
            lemma_digits_val_leading_zero(rest);
            assert(rest.drop_first() =~= tok@.subrange(start as int + 1, tok@.len() as int));
        }
        start = start + 1;
    }
    let ghost rest = tok@.subrange(start as int, tok@.len() as int);
    if start == tok.len() {
        proof {
            assert(digits_val(tok@) == 0);
        }
        return Some(0);
    }
    if tok.len() - start > 10 {
        proof {
            lemma_digits_val_lower(rest);
            lemma_pow10_mono(10, (rest.len() - 1) as nat);
            lemma_pow10_ten();
        }
        return None;
    }
    let mut acc: u64 = 0;
    let mut j: usize = start;
    while j < tok.len()
        invariant
            all_digits(tok@),
            start <= j <= tok@.len(),
            tok@.len() - start <= 10,
            rest == tok@.subrange(start as int, tok@.len() as int),
            digits_val(rest) == digits_val(tok@),
            acc == digits_val(tok@.subrange(start as int, j as int)),
            acc < 10_000_000_000,
        decreases tok@.len() - j,
    {
        let d = tok[j];
        proof {
            let prefix = tok@.subrange(start as int, j as int);
            let cur = tok@.subrange(start as int, j + 1);
            assert(cur.drop_last() =~= prefix);
            assert(cur.last() == tok@[j as int]);
            lemma_digits_val_upper(cur);
            lemma_pow10_mono(cur.len() as nat, 10);
            lemma_pow10_ten();
        }
        acc = acc * 10 + ((d - 48) as u64);
        j = j + 1;
    }
    proof {
        assert(tok@.subrange(start as int, tok@.len() as int) =~= rest);
    }
    if acc > 0xFFFF_FFFFu64 {
        None
    } else {
        Some(acc as u32)
    }
}

/// The boundary power of ten: no more than ten digits fit a 32-bit value.
proof fn lemma_pow10_ten()
    ensures
        pow10(10) == 10_000_000_000,
{
    assert(pow10(0) == 1);
    assert(pow10(1) == 10);
    assert(pow10(2) == 100);
    assert(pow10(3) == 1000);
    assert(pow10(4) == 10000);
    assert(pow10(5) == 100000);
    assert(pow10(6) == 1000000);
    assert(pow10(7) == 10000000);
    assert(pow10(8) == 100000000);
    assert(pow10(9) == 1000000000);
}

/// `pow10` is monotone in its exponent.
proof fn lemma_pow10_mono(a: nat, b: nat)
    requires
        a <= b,
    ensures
        pow10(a) <= pow10(b),
    decreases b,
{
    if a < b {
        lemma_pow10_mono(a, (b - 1) as nat);
        assert(pow10(b) == 10 * pow10((b - 1) as nat));
    }
}

/// A well-formed insert line: the first token is exactly the keyword, an
/// id token of digits whose value fits 32 bits, and name and email tokens
/// within the fixed row widths.
pub open spec fn insert_line_ok(s: Seq<u8>) -> bool {
    let toks = spec_tokens(s);
    &&& is_prefix(s, insert_kw())
    &&& toks.len() >= 4
    &&& toks[0] == insert_kw()
    &&& all_digits(toks[1])
    &&& digits_val(toks[1]) <= u32::MAX
    &&& toks[2].len() <= crate::row::USERNAME_SIZE
    &&& toks[3].len() <= crate::row::EMAIL_SIZE
}

/// Prepare one statement line: `insert <id> <name> <email>` or `select`.
/// The id must be a non-negative decimal that fits 32 bits; name and email
/// are free tokens bounded by the fixed row widths.  A well-formed insert
/// line is owed an `Ok` whose row fields are fixed by the tokens.
pub fn prepare_statement(cmd_str: &str) -> (r: Result<Statement, PrepareErr>)
    ensures
        is_prefix(cmd_str.spec_bytes(), select_kw()) ==> (r matches Ok(s) && s is Select),
        r matches Ok(Statement::Insert(row)) ==> (is_prefix(cmd_str.spec_bytes(), insert_kw())
            && row.wf()),
        !is_prefix(cmd_str.spec_bytes(), select_kw()) && !is_prefix(
            cmd_str.spec_bytes(),
            insert_kw(),
        ) ==> (r matches Err(e) && e is Unrecognized),
        insert_line_ok(cmd_str.spec_bytes()) ==> (r matches Ok(Statement::Insert(row)) && {
            let toks = spec_tokens(cmd_str.spec_bytes());
            &&& row@.key == digits_val(toks[1])
            &&& row@.username == toks[2] + crate::btree::utils::zeroes(
                (crate::row::USERNAME_SIZE - toks[2].len()) as nat,
            )
            &&& row@.email == toks[3] + crate::btree::utils::zeroes(
                (crate::row::EMAIL_SIZE - toks[3].len()) as nat,
            )
        }),
{
    let bytes = cmd_str.as_bytes();
    if bytes_starts_with(bytes, &[115u8, 101u8, 108u8, 101u8, 99u8, 116u8]) {
        proof {
            assert(seq![115u8, 101u8, 108u8, 101u8, 99u8, 116u8] =~= select_kw());
        }
        return Ok(Statement::Select);
    }
    proof {
        assert(seq![115u8, 101u8, 108u8, 101u8, 99u8, 116u8] =~= select_kw());
        assert(seq![105u8, 110u8, 115u8, 101u8, 114u8, 116u8] =~= insert_kw());
    }
    if !bytes_starts_with(bytes, &[105u8, 110u8, 115u8, 101u8, 114u8, 116u8]) {
        let mut msg = String::from_str("Unrecognized keyword at start of \"");
        msg.append(cmd_str);
        msg.append("\".");
        return Err(PrepareErr::Unrecognized(msg));
    }
    let tokens = tokenize(bytes);
    let ghost toks = spec_tokens(bytes@);
    proof {
        assert(toks_view(tokens@) == toks);
        assert forall|k: int| 0 <= k < tokens@.len() implies (#[trigger] tokens@[k])@
            == toks[k] by {
            assert(toks_view(tokens@)[k] == tokens@[k]@);
        }
    }
    if tokens.len() < 4 {
        return Err(
            PrepareErr::SyntaxErr(String::from_str("Syntax error. Could not parse statement.")),
        );
    }
    // The statement keyword must be a whole token: `insert` followed by
    // whitespace, not merely a prefix of the first word.
    let kw = &tokens[0];
    let kw_ok = kw.len() == 6 && bytes_starts_with(
        kw.as_slice(),
        &[105u8, 110u8, 115u8, 101u8, 114u8, 116u8],
    );
    if !kw_ok {
        proof {
            if toks[0] == insert_kw() {
                assert(kw@.len() == 6);
                assert(kw@.subrange(0, 6) =~= kw@);
            }
        }
        return Err(
            PrepareErr::SyntaxErr(String::from_str("Syntax error. Could not parse statement.")),
        );
    }
    let id_tok = &tokens[1];
    let id = match parse_decimal(id_tok.as_slice()) {
        Some(v) => v,
        None => {
            if id_tok.len() > 0 && id_tok[0] == 45u8 {
                return Err(PrepareErr::NegativeId(String::from_str("ID must be positive.")));
            }
            return Err(
                PrepareErr::SyntaxErr(
                    String::from_str("Syntax error. Could not parse statement."),
                ),
            );
        },
    };
    proof {
        if insert_line_ok(bytes@) {
            assert(id == digits_val(toks[1]));
        }
    }
    let row = match Row::build(id, tokens[2].as_slice(), tokens[3].as_slice()) {
        Ok(row) => row,
        Err(e) => {
            return Err(e);
        },
    };
    Ok(Statement::Insert(row))
}

/// The bytes of the `.exit` meta-command.
pub open spec fn exit_cmd() -> Seq<u8> {
    seq![46u8, 101u8, 120u8, 105u8, 116u8]
}

/// The bytes of the `.btree` meta-command.
pub open spec fn btree_cmd() -> Seq<u8> {
    seq![46u8, 98u8, 116u8, 114u8, 101u8, 101u8]
}

/// The bytes of the `.constants` meta-command.
pub open spec fn constants_cmd() -> Seq<u8> {
    seq![46u8, 99u8, 111u8, 110u8, 115u8, 116u8, 97u8, 110u8, 116u8, 115u8]
}

/// Recognize a meta-command: exactly `.exit`, `.btree` or `.constants`.
pub fn do_meta_command(cmd_str: &str) -> (r: Result<MetaCmd, MetaCmdErr>)
    ensures
        (r matches Ok(m) && m is Exit) <==> cmd_str.spec_bytes() == exit_cmd(),
        (r matches Ok(m) && m is Btree) <==> cmd_str.spec_bytes() == btree_cmd(),
        (r matches Ok(m) && m is Constants) <==> cmd_str.spec_bytes() == constants_cmd(),
        r matches Err(e) ==> e is Unrecognized,
{
    let bytes = cmd_str.as_bytes();
    proof {
        assert(seq![46u8, 101u8, 120u8, 105u8, 116u8] =~= exit_cmd());
        assert(seq![46u8, 98u8, 116u8, 114u8, 101u8, 101u8] =~= btree_cmd());
        assert(seq![46u8, 99u8, 111u8, 110u8, 115u8, 116u8, 97u8, 110u8, 116u8, 115u8]
            =~= constants_cmd());
    }
    if bytes.len() == 5 && bytes_starts_with(bytes, &[46u8, 101u8, 120u8, 105u8, 116u8]) {
        proof {
            assert(bytes@ =~= exit_cmd());
        }
        return Ok(MetaCmd::Exit);
    }
    if bytes.len() == 6 && bytes_starts_with(bytes, &[46u8, 98u8, 116u8, 114u8, 101u8, 101u8]) {
        proof {
            assert(bytes@ =~= btree_cmd());
        }
        return Ok(MetaCmd::Btree);
    }
    if bytes.len() == 10 && bytes_starts_with(
        bytes,
        &[46u8, 99u8, 111u8, 110u8, 115u8, 116u8, 97u8, 110u8, 116u8, 115u8],
    ) {
        proof {
            assert(bytes@ =~= constants_cmd());
        }
        return Ok(MetaCmd::Constants);
    }
    proof {
        if cmd_str.spec_bytes() == exit_cmd() {
            assert(bytes@.subrange(0, exit_cmd().len() as int) =~= exit_cmd());
            assert(is_prefix(bytes@, exit_cmd()));
        }
        if cmd_str.spec_bytes() == btree_cmd() {
            assert(bytes@.subrange(0, btree_cmd().len() as int) =~= btree_cmd());
            assert(is_prefix(bytes@, btree_cmd()));
        }
        if cmd_str.spec_bytes() == constants_cmd() {
            assert(bytes@.subrange(0, constants_cmd().len() as int) =~= constants_cmd());
            assert(is_prefix(bytes@, constants_cmd()));
        }
    }
    let mut msg = String::from_str("Unrecognized command \"");
    msg.append(cmd_str);
    msg.append("\".");
    Err(MetaCmdErr::Unrecognized(msg))
}

/// Insert a prepared row.
pub fn execute_insert(row: &Row, table: &mut Table) -> (r: Result<(), ExecErr>)
    requires
        old(table).wf(),
        row.wf(),
    ensures
        final(table).wf(),
        r is Ok ==> table_keys(final(table)@) == table_keys(old(table)@).insert(row@.key),
        (r matches Err(e) && (e is DuplicateKey || e is TableFull)) ==> final(table)@ == old(
            table,
        )@,
        r matches Err(e) ==> (e is DuplicateKey || e is TableFull || e is PagerFull
            || e is NodeError || e is PageNumOutBound),
        ({
            &&& old(table)@.len() == 1
            &&& old(table)@[0] matches NodeV::Leaf(l0)
            &&& l0.is_root
            &&& !crate::btree::leaf::leaf_contains_key(l0.cells, row@.key)
        }) ==> r is Ok,
        ({
            &&& old(table)@.len() == 1
            &&& old(table)@[0] matches NodeV::Leaf(l0)
            &&& crate::btree::leaf::leaf_contains_key(l0.cells, row@.key)
        }) ==> (r matches Err(e) && e is DuplicateKey),
{
    table.insert_row(row.key(), row)
}

/// Read every row in key order by walking the leaf chain from the first
/// leaf.  On success the rows are exactly the chain's rows; on a whole
/// chain success is owed.  A corrupt chain is reported, not followed
/// forever.
pub fn execute_select(table: &Table) -> (r: Result<Vec<Row>, ExecErr>)
    requires
        table.wf(),
    ensures
        r matches Ok(rows) ==> {
            let first = crate::table::spec_leftmost(table@, 0, table@.len() as nat);
            &&& forall|i: int| 0 <= i < rows@.len() ==> (#[trigger] rows@[i]).wf()
            &&& first >= 0
            &&& table@[first] matches NodeV::Leaf(l) && {
                &&& l.cells.len() == 0 ==> rows@.len() == 0
                &&& l.cells.len() > 0 ==> crate::table::rows_view(rows@)
                    == crate::table::spec_chain_rows(table@, first, table@.len() as nat)
            }
        },
        ({
            let first = crate::table::spec_leftmost(table@, 0, table@.len() as nat);
            first >= 0 && crate::table::chain_ok(table@, first, table@.len() as nat)
        }) ==> r is Ok,
{
    let n_pages = table.size();
    let mut rows: Vec<Row> = Vec::new();
    let mut cursor = match table.new_cursor_at_start() {
        Ok(c) => c,
        Err(e) => {
            return Err(e);
        },
    };
    let ghost first = cursor.leaf_idx as int;
    let ghost f0 = table@.len() as nat;
    if cursor.at_end {
        // The first leaf is empty: the whole table is.
        return Ok(rows);
    }
    proof {
        assert(crate::table::rows_view(rows@) =~= Seq::<crate::row::RowV>::empty());
        let l = table@[first]->Leaf_0;
        assert(l.cells.subrange(0, l.cells.len() as int) =~= l.cells);
        assert(Seq::<crate::row::RowV>::empty() + crate::table::spec_tail_rows(
            table@,
            first,
            0,
            (f0 - 1) as nat,
        ) =~= crate::table::spec_tail_rows(table@, first, 0, (f0 - 1) as nat));
    }
    let mut leaf_fuel: usize = n_pages;
    while !cursor.at_end
        invariant
            table.wf(),
            n_pages == table@.len(),
            f0 == table@.len() as nat,
            first == crate::table::spec_leftmost(table@, 0, f0),
            table@[first] matches NodeV::Leaf(fl) && fl.cells.len() > 0,
            forall|i: int| 0 <= i < rows@.len() ==> (#[trigger] rows@[i]).wf(),
            !cursor.at_end ==> {
                &&& crate::table::cursor_ok(table@, cursor)
                &&& cursor.cell_idx <= crate::table::cursor_cells(table@, cursor).len()
                &&& (crate::table::chain_ok(table@, first, f0) ==> cursor.cell_idx
                    < crate::table::cursor_cells(table@, cursor).len())
                &&& 1 <= leaf_fuel <= n_pages
                &&& crate::table::rows_view(rows@) + crate::table::spec_tail_rows(
                    table@,
                    cursor.leaf_idx as int,
                    cursor.cell_idx as int,
                    (leaf_fuel - 1) as nat,
                ) == crate::table::spec_chain_rows(table@, first, f0)
                &&& (crate::table::chain_ok(table@, first, f0) ==> crate::table::chain_ok(
                    table@,
                    cursor.leaf_idx as int,
                    leaf_fuel as nat,
                ))
            },
            cursor.at_end ==> crate::table::rows_view(rows@) == crate::table::spec_chain_rows(
                table@,
                first,
                f0,
            ),
        decreases leaf_fuel, crate::table::cursor_cells(table@, cursor).len() - cursor.cell_idx,
    {
        let ghost pre_cursor = cursor;
        let ghost pre_rows = rows@;
        let row = match table.select_row(&cursor) {
            Ok(row) => row,
            Err(e) => {
                return Err(e);
            },
        };
        let ghost rv = row@;
        rows.push(row);
        proof {
            let l = table@[pre_cursor.leaf_idx as int]->Leaf_0;
            let c = pre_cursor.cell_idx as int;
            assert(crate::table::rows_view(rows@) =~= crate::table::rows_view(pre_rows).push(rv));
            assert(l.cells.subrange(c, l.cells.len() as int) =~= seq![l.cells[c]]
                + l.cells.subrange(c + 1, l.cells.len() as int));
            assert(crate::table::leaf_rows(l.cells.subrange(c, l.cells.len() as int))
                =~= seq![rv] + crate::table::leaf_rows(
                l.cells.subrange(c + 1, l.cells.len() as int),
            ));
        }
        match table.advance_cursor(&mut cursor) {
            Ok(_) => {},
            Err(e) => {
                proof {
                    let l = table@[pre_cursor.leaf_idx as int]->Leaf_0;
                    if crate::table::chain_ok(table@, first, f0) {
                        assert(crate::table::chain_ok(
                            table@,
                            pre_cursor.leaf_idx as int,
                            leaf_fuel as nat,
                        ));
                        assert(l.next matches Some(n) && (n as int) < table@.len()
                            && table@[n as int] is Leaf);
                    }
                }
                return Err(e);
            },
        }
        proof {
            let l = table@[pre_cursor.leaf_idx as int]->Leaf_0;
            let c = pre_cursor.cell_idx as int;
            let tail_pre = crate::table::spec_tail_rows(
                table@,
                pre_cursor.leaf_idx as int,
                c,
                (leaf_fuel - 1) as nat,
            );
            assert(tail_pre =~= seq![rv] + crate::table::spec_tail_rows(
                table@,
                pre_cursor.leaf_idx as int,
                c + 1,
                (leaf_fuel - 1) as nat,
            ));
            assert(crate::table::rows_view(pre_rows) + tail_pre =~= crate::table::rows_view(
                rows@,
            ) + crate::table::spec_tail_rows(
                table@,
                pre_cursor.leaf_idx as int,
                c + 1,
                (leaf_fuel - 1) as nat,
            ));
        }
        if cursor.cell_idx == 0 {
            // The cursor jumped to the next leaf.
            proof {
                let l = table@[pre_cursor.leaf_idx as int]->Leaf_0;
                let c = pre_cursor.cell_idx as int;
                assert(c + 1 == l.cells.len());
                assert(l.next matches Some(n) && cursor.leaf_idx == n);
                assert(l.cells.subrange(c + 1, l.cells.len() as int) =~= Seq::<
                    crate::btree::leaf::CellV,
                >::empty());
                assert(crate::table::leaf_rows(Seq::empty()) =~= Seq::<
                    crate::row::RowV,
                >::empty());
                assert(crate::table::spec_tail_rows(
                    table@,
                    pre_cursor.leaf_idx as int,
                    c + 1,
                    (leaf_fuel - 1) as nat,
                ) =~= crate::table::spec_chain_rows(
                    table@,
                    cursor.leaf_idx as int,
                    (leaf_fuel - 1) as nat,
                ));
            }
            leaf_fuel = leaf_fuel - 1;
            if leaf_fuel == 0 {
                proof {
                    if crate::table::chain_ok(table@, first, f0) {
                        let l = table@[pre_cursor.leaf_idx as int]->Leaf_0;
                        assert(crate::table::chain_ok(
                            table@,
                            pre_cursor.leaf_idx as int,
                            (leaf_fuel + 1) as nat,
                        ));
                        assert(l.next matches Some(n) && cursor.leaf_idx == n);
                        assert(crate::table::chain_ok(
                            table@,
                            cursor.leaf_idx as int,
                            leaf_fuel as nat,
                        ));
                        assert(false);
                    }
                }
                return Err(
                    ExecErr::NodeError(String::from_str("Corrupt tree: leaf chain too long")),
                );
            }
            proof {
                let nl = table@[cursor.leaf_idx as int]->Leaf_0;
                assert(crate::table::spec_chain_rows(
                    table@,
                    cursor.leaf_idx as int,
                    leaf_fuel as nat,
                ) =~= crate::table::spec_tail_rows(
                    table@,
                    cursor.leaf_idx as int,
                    0,
                    (leaf_fuel - 1) as nat,
                ));
                if crate::table::chain_ok(table@, first, f0) {
                    assert(nl.cells.len() > 0);
                    assert(cursor.cell_idx < crate::table::cursor_cells(table@, cursor).len());
                }
            }
        } else {
            proof {
                let l = table@[pre_cursor.leaf_idx as int]->Leaf_0;
                let c = pre_cursor.cell_idx as int;
                if cursor.at_end {
                    assert(c + 1 == l.cells.len() && l.next is None);
                    assert(l.cells.subrange(c + 1, l.cells.len() as int) =~= Seq::<
                        crate::btree::leaf::CellV,
                    >::empty());
                    assert(crate::table::leaf_rows(Seq::empty()) =~= Seq::<
                        crate::row::RowV,
                    >::empty());
                    assert(crate::table::spec_tail_rows(
                        table@,
                        pre_cursor.leaf_idx as int,
                        c + 1,
                        (leaf_fuel - 1) as nat,
                    ) =~= Seq::<crate::row::RowV>::empty());
                    assert(crate::table::rows_view(rows@) + Seq::<crate::row::RowV>::empty()
                        =~= crate::table::rows_view(rows@));
                }
            }
        }
    }
    Ok(rows)
}

/// Run one command line against the table: a dot-command is dispatched as a
/// meta-command, anything else is prepared and executed.
pub fn run_cmd(cmd_str: &str, table: &mut Table) -> (r: Result<Reply, DbError>)
    requires
        old(table).wf(),
    ensures
        final(table).wf(),
        r matches Ok(Reply::Tree(s)) ==> s@ == crate::table::spec_btree_str(final(table)@),
        r matches Ok(Reply::Rows(rows)) ==> (final(table)@ == old(table)@ && {
            let first = crate::table::spec_leftmost(
                final(table)@,
                0,
                final(table)@.len() as nat,
            );
            &&& first >= 0
            &&& final(table)@[first] matches NodeV::Leaf(l) && {
                &&& l.cells.len() == 0 ==> rows@.len() == 0
                &&& l.cells.len() > 0 ==> crate::table::rows_view(rows@)
                    == crate::table::spec_chain_rows(
                    final(table)@,
                    first,
                    final(table)@.len() as nat,
                )
            }
        }),
        ({
            &&& insert_line_ok(cmd_str.spec_bytes())
            &&& r matches Ok(rep)
            &&& rep is Executed
        }) ==> crate::table::table_keys(final(table)@) == crate::table::table_keys(
            old(table)@,
        ).insert(digits_val(spec_tokens(cmd_str.spec_bytes())[1]) as u32),
{
    let bytes = cmd_str.as_bytes();
    if bytes.len() > 0 && bytes[0] == 46u8 {
        let meta = match do_meta_command(cmd_str) {
            Ok(m) => m,
            Err(e) => {
                return Err(DbError::MetaCmdErr(e));
            },
        };
        return match meta {
            MetaCmd::Exit => Ok(Reply::Exit),
            MetaCmd::Btree => Ok(Reply::Tree(table.btree_to_str())),
            MetaCmd::Constants => Ok(Reply::Constants),
        };
    }
    let statement = match prepare_statement(cmd_str) {
        Ok(s) => s,
        Err(e) => {
            return Err(DbError::PrepareErr(e));
        },
    };
    match statement {
        Statement::Insert(row) => match execute_insert(&row, table) {
            Ok(_) => Ok(Reply::Executed),
            Err(e) => Err(DbError::ExecErr(e)),
        },
        Statement::Select => match execute_select(table) {
            Ok(rows) => Ok(Reply::Rows(rows)),
            Err(e) => Err(DbError::ExecErr(e)),
        },
    }
}

} // verus!
