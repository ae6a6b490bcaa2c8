use vstd::prelude::*;
use vstd::string::StringSliceAdditionalSpecFns;
use vstd::utf8::{encode_utf8, encode_utf8_valid_utf8, is_char_boundary_start_end_of_seq};
use crate::article::{bz_text, decode_text, DumpError};
use crate::index::{
    line_entry, line_is_bad, lines_of, newline, parse_index_line, records_of, records_of_lines, strip_cr,
    NEWLINE, RETURN,
};
use crate::scan::{find_from, lemma_find_is_leftmost};
use crate::text::{lemma_boundary_after_ascii, lemma_boundary_at_ascii, slice_str};

verus! {

#[verifier::external_type_specification]
#[verifier::external_body]
pub struct ExConnection(rusqlite::Connection);

#[verifier::external_type_specification]
#[verifier::external_body]
pub struct ExSqlError(rusqlite::Error);

/// The rows of the index table behind a connection, in rowid order (the order in which
/// they were inserted): offset, id and the UTF-8 bytes of the title. No rows where the table
/// does not exist.
pub uninterp spec fn index_rows(c: rusqlite::Connection) -> Seq<(int, int, Seq<u8>)>;

/// The rows of the index table as they stood when the open transaction began.
pub uninterp spec fn begin_rows(c: rusqlite::Connection) -> Seq<(int, int, Seq<u8>)>;

/// Whether the index table exists.
pub uninterp spec fn table_exists(c: rusqlite::Connection) -> bool;

/// Whether the two lookup indexes of the table, by title and by offset, exist.
pub uninterp spec fn has_lookup_indexes(c: rusqlite::Connection) -> bool;

/// The path of the store that a connection was opened on.
pub uninterp spec fn store_path(c: rusqlite::Connection) -> Seq<char>;

/// Relies on `rusqlite::Connection::open`: opens (or creates) the store at `path`.
#[verifier::external_body]
fn open_store(path: &str) -> (r: Result<rusqlite::Connection, rusqlite::Error>)
    ensures
        r matches Ok(c) ==> store_path(c) == path@,
{
    rusqlite::Connection::open(path)
}

/// Makes the index table; it fails where the table exists.
pub open spec fn create_table_sql() -> Seq<char> {
    "CREATE TABLE multistream_index (bz2_offset INTEGER, id INTEGER, title TEXT)"@
}

/// Opens a transaction.
pub open spec fn begin_sql() -> Seq<char> {
    "BEGIN"@
}

/// Commits a transaction.
pub open spec fn commit_sql() -> Seq<char> {
    "COMMIT"@
}

/// Undoes the open transaction.
pub open spec fn rollback_sql() -> Seq<char> {
    "ROLLBACK"@
}

/// Makes the lookup indexes, by title and by offset.
pub open spec fn create_indexes_sql() -> Seq<char> {
    "CREATE INDEX idx_title ON multistream_index(title); CREATE INDEX idx_bz2_offset ON multistream_index(bz2_offset);"@
}

/// Relies on `rusqlite::Connection::execute_batch`, for the statements above, run by SQLite:
/// `BEGIN` changes no rows and records them as the transaction's start; `CREATE TABLE` fails
/// where the table exists, and a table it made holds no rows; a failed statement changes
/// nothing; `CREATE INDEX` makes both lookup indexes; `COMMIT` keeps rows and indexes;
/// neither moves the transaction's start; `ROLLBACK` brings the rows back to it.
#[verifier::external_body]
fn run_batch(c: &mut rusqlite::Connection, sql: &str) -> (r: Result<(), rusqlite::Error>)
    requires
        sql@ == create_table_sql() || sql@ == begin_sql() || sql@ == commit_sql() || sql@
            == rollback_sql() || sql@ == create_indexes_sql(),
    ensures
        sql@ == begin_sql() ==> index_rows(*final(c)) == index_rows(*old(c)) && table_exists(
            *final(c),
        ) == table_exists(*old(c)),
        r is Ok && sql@ == begin_sql() ==> begin_rows(*final(c)) == index_rows(*old(c)),
        sql@ == create_table_sql() && table_exists(*old(c)) ==> r is Err,
        r is Ok && sql@ == create_table_sql() ==> index_rows(*final(c)).len() == 0
            && begin_rows(*final(c)) == begin_rows(*old(c)),
        r is Err && sql@ == create_table_sql() ==> index_rows(*final(c)) == index_rows(*old(c))
            && begin_rows(*final(c)) == begin_rows(*old(c)),
        r is Ok && sql@ == create_indexes_sql() ==> index_rows(*final(c)) == index_rows(*old(c))
            && begin_rows(*final(c)) == begin_rows(*old(c)) && has_lookup_indexes(*final(c)),
        r is Ok && sql@ == commit_sql() ==> index_rows(*final(c)) == index_rows(*old(c))
            && has_lookup_indexes(*final(c)) == has_lookup_indexes(*old(c)),
        r is Ok && sql@ == rollback_sql() ==> index_rows(*final(c)) == begin_rows(*old(c)),
        sql@ == create_indexes_sql() || sql@ == commit_sql() ==> begin_rows(*final(c)) == begin_rows(
            *old(c),
        ),
{
    c.execute_batch(sql)
}

/// Relies on `rusqlite::Connection::execute` of `INSERT`: adds one row after the others; the
/// transaction's start stays as it was.
#[verifier::external_body]
fn insert_db(c: &mut rusqlite::Connection, offset: i64, id: u32, title: &str) -> (r: Result<
    usize,
    rusqlite::Error,
>)
    ensures
        r is Ok ==> index_rows(*final(c)) == index_rows(*old(c)).push(
            (offset as int, id as int, title.spec_bytes()),
        ),
        begin_rows(*final(c)) == begin_rows(*old(c)),
{
    c.execute(
        "INSERT INTO multistream_index (bz2_offset, id, title) VALUES (?1, ?2, ?3)",
        (offset, id, title),
    )
}

/// The offset of the first row (in rowid order) whose title is `t`.
pub open spec fn first_match(rows: Seq<(int, int, Seq<u8>)>, t: Seq<u8>) -> Option<int>
    decreases rows.len(),
{
    if rows.len() == 0 {
        None
    } else if rows[0].2 == t {
        Some(rows[0].0)
    } else {
        first_match(rows.drop_first(), t)
    }
}

/// An optional offset as an optional integer.
pub open spec fn opt_int(o: Option<i64>) -> Option<int> {
    match o {
        Some(v) => Some(v as int),
        None => None,
    }
}

/// Relies on `rusqlite::Connection::query_row` of a `SELECT` with an exact `=` on the title,
/// `ORDER BY rowid LIMIT 1`: the first row with that title, or `QueryReturnedNoRows` where
/// none has it; preparing the query fails where the table does not exist.
#[verifier::external_body]
fn query_offset(c: &rusqlite::Connection, title: &str) -> (r: Result<Option<i64>, rusqlite::Error>)
    ensures
        !table_exists(*c) ==> r is Err,
        r matches Ok(o) ==> opt_int(o) == first_match(index_rows(*c), title.spec_bytes()),
{
    match c.query_row(
        "SELECT bz2_offset FROM multistream_index WHERE title = ?1 ORDER BY rowid LIMIT 1",
        (title,),
        |row| row.get::<usize, i64>(0),
    ) {
        Ok(o) => Ok(Some(o)),
        Err(rusqlite::Error::QueryReturnedNoRows) => Ok(None),
        Err(e) => Err(e),
    }
}

/// The offset that a stored row holds, as a `usize`: a storage error where it is negative
/// or too large.
pub fn offset_from_row(q: Option<i64>) -> (r: Result<Option<usize>, DumpError>)
    ensures
        r == match q {
            None => Ok(None),
            Some(v) => if 0 <= v <= usize::MAX {
                Ok(Some(v as usize))
            } else {
                Err(DumpError::Storage)
            },
        },
{
    match q {
        None => Ok(None),
        Some(v) => {
            if v < 0 || v as u64 > usize::MAX as u64 {
                Err(DumpError::Storage)
            } else {
                Ok(Some(v as usize))
            }
        },
    }
}

/// A corpus file together with the store of its title index.
pub struct WiktionaryDump {
    pub multistream_path: String,
    pub con: rusqlite::Connection,
}

impl WiktionaryDump {
    /// Opens the index store at `index_db_path` for the corpus at `multistream_path`.
    pub fn new(multistream_path: &str, index_db_path: &str) -> (r: Result<WiktionaryDump, DumpError>)
        ensures
            r matches Ok(d) ==> d.multistream_path@ == multistream_path@ && store_path(d.con)
                == index_db_path@,
    {
        match open_store(index_db_path) {
            Ok(con) => Ok(WiktionaryDump { multistream_path: multistream_path.to_owned(), con }),
            Err(_) => Err(DumpError::Storage),
        }
    }

    /// The offset of the block that holds the first indexed document titled `title`; `None`
    /// where the index has no such title.
    pub fn get_article_offset(&self, title: &str) -> (r: Result<Option<usize>, DumpError>)
        ensures
            r matches Ok(o) ==> match o {
                Some(v) => first_match(index_rows(self.con), title.spec_bytes()) == Some(v as int),
                None => first_match(index_rows(self.con), title.spec_bytes()) is None,
            },
            r matches Err(e) ==> e == DumpError::Storage,
            !table_exists(self.con) ==> r is Err,
    {
        match query_offset(&self.con, title) {
            Ok(q) => offset_from_row(q),
            Err(_) => Err(DumpError::Storage),
        }
    }

    /// Gives up an open transaction after `e`: `e` where the rollback went through, else
    /// `Rollback`.
    fn abandon(&mut self, e: DumpError) -> (r: DumpError)
        ensures
            r != DumpError::Rollback ==> index_rows(final(self).con) == begin_rows(old(self).con),
            r == e || r == DumpError::Rollback,
            final(self).multistream_path == old(self).multistream_path,
    {
        match run_batch(&mut self.con, "ROLLBACK") {
            Ok(()) => e,
            Err(_) => DumpError::Rollback,
        }
    }

    /// Builds the index from the text of a raw index dump: one row for each line of three
    /// colon-separated fields, in order, then the lookup indexes, all in one transaction; the
    /// other lines are skipped. On failure the transaction is rolled back, leaving the rows as
    /// they were, unless the rollback fails too (`Rollback`).
    pub fn build_index(&mut self, text: &str) -> (r: Result<(), DumpError>)
        ensures
            r is Ok ==> records_of(text.spec_bytes()) == Some(index_rows(final(self).con))
                && has_lookup_indexes(final(self).con),
            r is Err && r != Err::<(), DumpError>(DumpError::Rollback) ==> index_rows(
                final(self).con,
            ) == index_rows(old(self).con),
            table_exists(old(self).con) ==> r is Err,
            records_of(text.spec_bytes()) is None ==> r is Err,
            r == Err::<(), DumpError>(DumpError::BadIndexLine) ==> records_of(text.spec_bytes()) is None,
            offset_too_large(records_of(text.spec_bytes())) ==> r is Err,
            r matches Err(e) ==> e == DumpError::Storage || e == DumpError::BadIndexLine || e
                == DumpError::Rollback,
            final(self).multistream_path == old(self).multistream_path,
    {
        if run_batch(&mut self.con, "BEGIN").is_err() {
            return Err(DumpError::Storage);
        }
        if run_batch(
            &mut self.con,
            "CREATE TABLE multistream_index (bz2_offset INTEGER, id INTEGER, title TEXT)",
        ).is_err() {
            return Err(self.abandon(DumpError::Storage));
        }
        let mut cur: &str = text;
        let ghost acc: Seq<(int, int, Seq<u8>)> = Seq::empty();
        let nl: Vec<u8> = vec![NEWLINE];
        assert(nl@ =~= newline());
        assert(acc + records_of(text.spec_bytes())->0 =~= records_of(text.spec_bytes())->0);
        while cur.as_bytes().len() > 0
            invariant
                nl@ == newline(),
                index_rows(self.con) == acc,
                records_of(text.spec_bytes()) == prepend(acc, records_of(cur.spec_bytes())),
                self.multistream_path == old(self).multistream_path,
                begin_rows(self.con) == index_rows(old(self).con),
                forall|k: int| 0 <= k < acc.len() ==> (#[trigger] acc[k]).0 <= i64::MAX,
            decreases cur.spec_bytes().len(),
        {
            let h = cur.as_bytes();
            let n = h.len();
            proof {
                encode_utf8_valid_utf8(cur@);
                is_char_boundary_start_end_of_seq(h@);
                lemma_find_is_leftmost(h@, newline(), 0);
            }
            let (line, next) = match find_from(h, nl.as_slice(), 0) {
                None => {
                    let e = slice_str(cur, n, n);
                    proof {
                        assert(lines_of(cur.spec_bytes()) == seq![cur.spec_bytes()]);
                        assert(lines_of(e.spec_bytes()) =~= Seq::<Seq<u8>>::empty());
                        assert(lines_of(cur.spec_bytes()) =~= seq![cur.spec_bytes()] + lines_of(
                            e.spec_bytes(),
                        ));
                    }
                    (cur, e)
                },
                Some(j) => {
                    proof {
                        assert(h@.subrange(j as int, j + 1)[0] == h@[j as int]);
                        lemma_boundary_at_ascii(h@, j as int);
                        lemma_boundary_after_ascii(h@, j as int);
                    }
                    let ce = if j > 0 && h[j - 1] == RETURN {
                        proof {
                            lemma_boundary_at_ascii(h@, j - 1);
                        }
                        j - 1
                    } else {
                        j
                    };
                    assert(h@.subrange(0, ce as int) =~= strip_cr(h@.subrange(0, j as int)));
                    (slice_str(cur, 0, ce), slice_str(cur, j + 1, n))
                },
            };
            let ghost ls = lines_of(cur.spec_bytes());
            let ghost rest = lines_of(next.spec_bytes());
            proof {
                assert(ls =~= seq![line.spec_bytes()] + rest);
                assert(ls[0] == line.spec_bytes());
                assert(ls.drop_first() =~= rest);
            }
            match parse_index_line(line) {
                Err(e) => return Err(self.abandon(e)),
                Ok(None) => {},
                Ok(Some(m)) => {
                    if m.bz2_offset as u64 > i64::MAX as u64 {
                        return Err(self.abandon(DumpError::Storage));
                    }
                    if insert_db(&mut self.con, m.bz2_offset as i64, m.id, m.title.as_str()).is_err() {
                        return Err(self.abandon(DumpError::Storage));
                    }
                    proof {
                        let old_acc = acc;
                        acc = acc.push(m.view());
                        if let Some(rs) = records_of_lines(rest) {
                            assert(old_acc + (seq![m.view()] + rs) =~= acc + rs);
                        }
                    }
                },
            }
            cur = next;
        }
        assert(records_of(cur.spec_bytes()) == Some(Seq::<(int, int, Seq<u8>)>::empty()));
        assert(acc + Seq::<(int, int, Seq<u8>)>::empty() =~= acc);
        if run_batch(
            &mut self.con,
            "CREATE INDEX idx_title ON multistream_index(title); CREATE INDEX idx_bz2_offset ON multistream_index(bz2_offset);",
        ).is_err() {
            return Err(self.abandon(DumpError::Storage));
        }
        if run_batch(&mut self.con, "COMMIT").is_err() {
            return Err(self.abandon(DumpError::Storage));
        }
        proof {
            if offset_too_large(records_of(text.spec_bytes())) {
                let k = choose|k: int| 0 <= k < acc.len() && acc[k].0 > i64::MAX;
                assert(acc[k].0 <= i64::MAX);
            }
        }
        Ok(())
    }

    /// Builds the index from a bzip2-compressed raw index dump; a dump that does not decode
    /// leaves everything as it was.
    pub fn make_multistream_index(&mut self, index_bz2: &[u8]) -> (r: Result<(), DumpError>)
        ensures
            bz_text(index_bz2@) is None ==> r == Err::<(), DumpError>(DumpError::Decode)
                && *final(self) == *old(self),
            r == Err::<(), DumpError>(DumpError::Decode) ==> bz_text(index_bz2@) is None,
            bz_text(index_bz2@) matches Some(t) ==> {
                &&& r is Ok ==> records_of(encode_utf8(t)) == Some(index_rows(final(self).con))
                    && has_lookup_indexes(final(self).con)
                &&& r is Err && r != Err::<(), DumpError>(DumpError::Rollback) ==> index_rows(
                    final(self).con,
                ) == index_rows(old(self).con)
                &&& table_exists(old(self).con) ==> r is Err
                &&& records_of(encode_utf8(t)) is None ==> r is Err
                &&& r == Err::<(), DumpError>(DumpError::BadIndexLine) ==> records_of(
                    encode_utf8(t),
                ) is None
                &&& offset_too_large(records_of(encode_utf8(t))) ==> r is Err
            },
    {
        match decode_text(index_bz2) {
            Err(_) => Err(DumpError::Decode),
            Ok(text) => self.build_index(text.as_str()),
        }
    }
}

/// Some record holds an offset that the store cannot keep (over `i64::MAX`).
pub open spec fn offset_too_large(o: Option<Seq<(int, int, Seq<u8>)>>) -> bool {
    match o {
        Some(rs) => exists|k: int| 0 <= k < rs.len() && (#[trigger] rs[k]).0 > i64::MAX,
        None => false,
    }
}

/// The title of a record.
pub open spec fn title_of(e: (int, int, Seq<u8>)) -> Seq<u8> {
    e.2
}

/// The offset of a record.
pub open spec fn offset_of(e: (int, int, Seq<u8>)) -> int {
    e.0
}

/// `acc` followed by the records `o`, if any.
pub open spec fn prepend(acc: Seq<(int, int, Seq<u8>)>, o: Option<Seq<(int, int, Seq<u8>)>>) -> Option<
    Seq<(int, int, Seq<u8>)>,
> {
    match o {
        Some(rs) => Some(acc + rs),
        None => None,
    }
}

/// The offset of the first well-formed line of `ls` whose title is `t`.
pub open spec fn first_line_offset(ls: Seq<Seq<u8>>, t: Seq<u8>) -> Option<int>
    decreases ls.len(),
{
    if ls.len() == 0 {
        None
    } else if line_entry(ls[0]) is Some && title_of(line_entry(ls[0])->0) == t {
        Some(offset_of(line_entry(ls[0])->0))
    } else {
        first_line_offset(ls.drop_first(), t)
    }
}

/// A title that no row holds is not found.
pub proof fn lemma_absent_title_not_found(rows: Seq<(int, int, Seq<u8>)>, t: Seq<u8>)
    requires
        forall|k: int| 0 <= k < rows.len() ==> (#[trigger] rows[k]).2 != t,
    ensures
        first_match(rows, t) is None,
    decreases rows.len(),
{
    if rows.len() > 0 {
        assert(rows[0].2 != t);
        assert forall|k: int| 0 <= k < rows.drop_first().len() implies (
        #[trigger] rows.drop_first()[k]).2 != t by {
            assert(rows.drop_first()[k] == rows[k + 1]);
        }
        lemma_absent_title_not_found(rows.drop_first(), t);
    }
}

/// Round trip: after a build from the lines `ls`, the lookup of a title answers with the
/// offset of the first well-formed line that holds that title, and with none where no
/// well-formed line holds it. (A text's lines are `lines_of(text)`.)
pub proof fn lemma_build_then_lookup(ls: Seq<Seq<u8>>, t: Seq<u8>)
    ensures
        records_of_lines(ls) matches Some(rows) ==> first_match(rows, t) == first_line_offset(ls, t),
    decreases ls.len(),
{
    if ls.len() > 0 && !line_is_bad(ls[0]) {
        lemma_build_then_lookup(ls.drop_first(), t);
        if let Some(rs0) = records_of_lines(ls.drop_first()) {
            if let Some(e) = line_entry(ls[0]) {
                let rows = seq![e] + rs0;
                assert(rows[0] == e);
                assert(rows.drop_first() =~= rs0);
            }
        }
    }
}

/// Every well-formed line's title is found: the first such line gives an offset.
pub proof fn lemma_well_formed_title_found(ls: Seq<Seq<u8>>, k: int)
    requires
        0 <= k < ls.len(),
        line_entry(ls[k]) is Some,
    ensures
        first_line_offset(ls, title_of(line_entry(ls[k])->0)) is Some,
    decreases ls.len(),
{
    if k > 0 {
        assert(ls.drop_first()[k - 1] == ls[k]);
        lemma_well_formed_title_found(ls.drop_first(), k - 1);
    }
}

} // verus!
