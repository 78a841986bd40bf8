use vstd::prelude::*;
use vstd::std_specs::iter::IteratorSpec;

verus! {

/// The characters of a string, in order.
pub(crate) fn chars_of(s: &str) -> (r: Vec<char>)
    ensures
        r@ == s@,
{
    broadcast use vstd::string::axiom_spec_iter, vstd::string::next_postcondition;

    let mut it = s.chars();
    let mut r: Vec<char> = Vec::new();
    loop
        invariant
            it.obeys_prophetic_iter_laws(),
            it.decrease() is Some,
            r@ + it.remaining() == s@,
        ensures
            r@ == s@,
        decreases it.decrease()->0,
    {
        match it.next() {
            Some(c) => {
                r.push(c);
                proof { assert(r@ + it.remaining() =~= s@); }
            },
            None => {
                proof { assert(r@ =~= s@); }
                break;
            },
        }
    }
    r
}

/// The string made of the characters, in order.
///
/// Relies on `String: FromIterator<char>`: each character is appended in order.
#[verifier::external_body]
pub(crate) fn string_of(cs: &Vec<char>) -> (r: String)
    ensures
        r@ == cs@,
{
    cs.iter().collect()
}

/// Reading one record from position `i` with the field, the earlier fields of the record and
/// the quoting state seen so far: the record, if there is one, and the position after it.
///
/// A double quote opens a quoted field, and inside one a doubled quote stands for a quote and
/// a single one closes it; outside quotes a comma ends a field and a newline ends the record;
/// a carriage return is dropped everywhere. The end of the text ends a record that has any
/// content.
pub open spec fn parse_record(
    s: Seq<char>,
    i: nat,
    field: Seq<char>,
    record: Seq<Seq<char>>,
    quoted: bool,
) -> (Option<Seq<Seq<char>>>, nat)
    decreases s.len() - i,
{
    if i >= s.len() {
        if field.len() > 0 || record.len() > 0 {
            (Some(record.push(field)), s.len())
        } else {
            (None, s.len())
        }
    } else {
        let c = s[i as int];
        if c == '"' {
            if quoted {
                if i + 1 < s.len() && s[(i + 1) as int] == '"' {
                    parse_record(s, i + 2, field.push('"'), record, true)
                } else {
                    parse_record(s, i + 1, field, record, false)
                }
            } else {
                parse_record(s, i + 1, field, record, true)
            }
        } else if c == ',' && !quoted {
            parse_record(s, i + 1, Seq::empty(), record.push(field), false)
        } else if c == '\n' && !quoted {
            (Some(record.push(field)), i + 1)
        } else if c == '\r' {
            parse_record(s, i + 1, field, record, quoted)
        } else {
            parse_record(s, i + 1, field.push(c), record, quoted)
        }
    }
}

/// The records of the text from position `i` on.
pub open spec fn records_from(s: Seq<char>, i: nat) -> Seq<Seq<Seq<char>>>
    decreases s.len() - i,
{
    let (r, j) = parse_record(s, i, Seq::empty(), Seq::empty(), false);
    match r {
        None => Seq::empty(),
        Some(rec) => if i < j <= s.len() {
            seq![rec] + records_from(s, j)
        } else {
            seq![rec]
        },
    }
}

/// The records of a CSV text.
pub open spec fn records_of(s: Seq<char>) -> Seq<Seq<Seq<char>>> {
    records_from(s, 0)
}

proof fn lemma_parse_record_end(
    s: Seq<char>,
    i: nat,
    field: Seq<char>,
    record: Seq<Seq<char>>,
    quoted: bool,
)
    requires
        i <= s.len(),
    ensures
        ({
            let (r, j) = parse_record(s, i, field, record, quoted);
            &&& j <= s.len()
            &&& r.is_some() ==> i < j || (i == s.len() && j == s.len())
            &&& r.is_none() ==> j == s.len()
        }),
    decreases s.len() - i,
{
    if i < s.len() {
        let c = s[i as int];
        if c == '"' {
            if quoted {
                if i + 1 < s.len() && s[(i + 1) as int] == '"' {
                    lemma_parse_record_end(s, i + 2, field.push('"'), record, true);
                } else {
                    lemma_parse_record_end(s, i + 1, field, record, false);
                }
            } else {
                lemma_parse_record_end(s, i + 1, field, record, true);
            }
        } else if c == ',' && !quoted {
            lemma_parse_record_end(s, i + 1, Seq::empty(), record.push(field), false);
        } else if c == '\n' && !quoted {
        } else if c == '\r' {
            lemma_parse_record_end(s, i + 1, field, record, quoted);
        } else {
            lemma_parse_record_end(s, i + 1, field.push(c), record, quoted);
        }
    }
}

/// Reads the records of a CSV text one at a time.
///
/// Fields are separated by commas and records by newlines; a field may be quoted with double
/// quotes, inside which commas and newlines are literal and a doubled quote stands for a quote.
/// Carriage returns are dropped.
pub struct CsvReader {
    text: Vec<char>,
    pos: usize,
}

impl CsvReader {
    /// The records that are still to be read.
    pub closed spec fn remaining(&self) -> Seq<Seq<Seq<char>>> {
        records_from(self.text@, self.pos as nat)
    }

    /// The reader has not run past the end of its text.
    pub closed spec fn wf(&self) -> bool {
        self.pos <= self.text@.len()
    }

    /// Creates a reader over `text`.
    pub fn new(text: &str) -> (r: Self)
        ensures
            r.wf(),
            r.remaining() == records_of(text@),
    {
        Self { text: chars_of(text), pos: 0 }
    }

    /// Reads the next record, or returns `None` at the end of the text.
    pub fn next(&mut self) -> (r: Option<Vec<String>>)
        requires
            old(self).wf(),
        ensures
            final(self).wf(),
            old(self).remaining().len() == 0 ==> r.is_none() && final(self).remaining().len() == 0,
            old(self).remaining().len() > 0 ==> r.is_some() && r.unwrap()@.map_values(
                |f: String| f@,
            ) == old(self).remaining()[0] && final(self).remaining() == old(
                self,
            ).remaining().drop_first(),
    {
        let ghost s = self.text@;
        let ghost start = self.pos as nat;
        let n = self.text.len();
        let mut i = self.pos;
        let mut field: Vec<char> = Vec::new();
        let mut record: Vec<String> = Vec::new();
        let mut quoted = false;
        proof {
            lemma_parse_record_end(s, start, Seq::empty(), Seq::empty(), false);
            assert(record@.map_values(|f: String| f@) =~= Seq::<Seq<char>>::empty());
        }
        while i < n
            invariant
                s == self.text@,
                s == old(self).text@,
                start == old(self).pos,
                n == s.len(),
                start == self.pos,
                start <= i <= n,
                parse_record(s, i as nat, field@, record@.map_values(|f: String| f@), quoted)
                    == parse_record(s, start, Seq::empty(), Seq::empty(), false),
            decreases n - i,
        {
            let c = self.text[i];
            if c == '"' {
                if quoted {
                    if i + 1 < n && self.text[i + 1] == '"' {
                        field.push('"');
                        i = i + 2;
                    } else {
                        quoted = false;
                        i = i + 1;
                    }
                } else {
                    quoted = true;
                    i = i + 1;
                }
            } else if c == ',' && !quoted {
                let ghost before = record@.map_values(|f: String| f@);
                record.push(string_of(&field));
                proof { assert(record@.map_values(|f: String| f@) =~= before.push(field@)); }
                field = Vec::new();
                i = i + 1;
            } else if c == '\n' && !quoted {
                let ghost before = record@.map_values(|f: String| f@);
                proof {
                    assert(parse_record(s, i as nat, field@, before, quoted) == (
                        Some(before.push(field@)),
                        (i + 1) as nat,
                    ));
                }
                record.push(string_of(&field));
                proof { assert(record@.map_values(|f: String| f@) =~= before.push(field@)); }
                self.pos = i + 1;
                proof {
                    lemma_first_record(s, start);
                    let pr = parse_record(s, start, Seq::empty(), Seq::empty(), false);
                    assert(pr.0 == Some(before.push(field@)));
                    assert(pr.1 == i + 1);
                    assert(old(self).remaining() == records_from(s, start));
                    assert(records_from(s, start)[0] == before.push(field@));
                    assert(self.remaining() == records_from(s, pr.1));
                }
                return Some(record);
            } else if c == '\r' {
                i = i + 1;
            } else {
                field.push(c);
                i = i + 1;
            }
        }
        proof { lemma_first_record(s, start); }
        self.pos = n;
        proof { lemma_first_record(s, n as nat); }
        if field.len() > 0 || record.len() > 0 {
            let ghost before = record@.map_values(|f: String| f@);
            record.push(string_of(&field));
            proof { assert(record@.map_values(|f: String| f@) =~= before.push(field@)); }
            Some(record)
        } else {
            None
        }
    }
}

/// How the records from position `i` start.
proof fn lemma_first_record(s: Seq<char>, i: nat)
    requires
        i <= s.len(),
    ensures
        ({
            let (r, j) = parse_record(s, i, Seq::empty(), Seq::empty(), false);
            &&& r.is_none() ==> records_from(s, i).len() == 0 && j == s.len()
            &&& r.is_some() ==> records_from(s, i).len() > 0 && records_from(s, i)[0] == r.unwrap()
                && records_from(s, i).drop_first() == records_from(s, j) && j <= s.len()
        }),
{
    lemma_parse_record_end(s, i, Seq::empty(), Seq::empty(), false);
    let (r, j) = parse_record(s, i, Seq::empty(), Seq::empty(), false);
    if r.is_some() {
        if i < j {
            assert((seq![r.unwrap()] + records_from(s, j)).drop_first() =~= records_from(s, j));
        } else {
            assert(i == s.len() && j == s.len());
            assert(parse_record(s, j, Seq::empty(), Seq::empty(), false).0.is_none());
            assert(records_from(s, j) =~= Seq::<Seq<Seq<char>>>::empty());
            assert(seq![r.unwrap()].drop_first() =~= Seq::<Seq<Seq<char>>>::empty());
        }
    }
}

/// The text of one field: quoted, with its quotes doubled, when it holds a comma, a quote or
/// a newline; as it is otherwise.
pub open spec fn encode_field(f: Seq<char>) -> Seq<char> {
    if f.contains(',') || f.contains('"') || f.contains('\n') {
        seq!['"'] + escape_quotes(f) + seq!['"']
    } else {
        f
    }
}

/// The characters with every double quote doubled.
pub open spec fn escape_quotes(f: Seq<char>) -> Seq<char>
    decreases f.len(),
{
    if f.len() == 0 {
        Seq::empty()
    } else {
        escape_quotes(f.drop_last()) + if f.last() == '"' {
            seq!['"', '"']
        } else {
            seq![f.last()]
        }
    }
}

/// The fields, encoded and separated by commas.
pub open spec fn join_fields(r: Seq<Seq<char>>) -> Seq<char>
    decreases r.len(),
{
    if r.len() == 0 {
        Seq::empty()
    } else if r.len() == 1 {
        encode_field(r[0])
    } else {
        join_fields(r.drop_last()) + seq![','] + encode_field(r.last())
    }
}

/// The text of one record: its fields, then a newline.
pub open spec fn encode_record(r: Seq<Seq<char>>) -> Seq<char> {
    join_fields(r) + seq!['\n']
}

/// The text of the records, one after the other.
pub open spec fn encode_records(rs: Seq<Seq<Seq<char>>>) -> Seq<char>
    decreases rs.len(),
{
    if rs.len() == 0 {
        Seq::empty()
    } else {
        encode_records(rs.drop_last()) + encode_record(rs.last())
    }
}

/// Writes records as CSV text.
pub struct CsvWriter {
    out: Vec<char>,
}

impl CsvWriter {
    /// The text written so far.
    pub closed spec fn written(&self) -> Seq<char> {
        self.out@
    }

    /// Creates a writer that has written nothing.
    pub fn new() -> (w: Self)
        ensures
            w.written() == Seq::<char>::empty(),
    {
        Self { out: Vec::new() }
    }

    /// Writes one record: its fields separated by commas, each quoted as [`encode_field`]
    /// says, then a newline.
    pub fn write_record(&mut self, record: &[String])
        ensures
            final(self).written() == old(self).written() + encode_record(
                record@.map_values(|f: String| f@),
            ),
    {
        let ghost fields = record@.map_values(|f: String| f@);
        let mut k: usize = 0;
        while k < record.len()
            invariant
                k <= record@.len(),
                fields == record@.map_values(|f: String| f@),
                self.out@ == old(self).out@ + join_fields(fields.subrange(0, k as int)),
            decreases record@.len() - k,
        {
            let ghost prefix = fields.subrange(0, k as int);
            if k > 0 {
                self.out.push(',');
            }
            let field = chars_of(record[k].as_str());
            let needs_quotes = contains_special(&field);
            if needs_quotes {
                self.out.push('"');
                let mut m: usize = 0;
                while m < field.len()
                    invariant
                        m <= field@.len(),
                        self.out@ == old(self).out@ + join_fields(prefix) + (if k > 0 {
                            seq![',']
                        } else {
                            Seq::empty()
                        }) + seq!['"'] + escape_quotes(field@.subrange(0, m as int)),
                    decreases field@.len() - m,
                {
                    let c = field[m];
                    if c == '"' {
                        self.out.push('"');
                        self.out.push('"');
                    } else {
                        self.out.push(c);
                    }
                    proof {
                        assert(field@.subrange(0, m + 1).drop_last() =~= field@.subrange(0, m as int));
                    }
                    m = m + 1;
                    proof {
                        assert(self.out@ =~= old(self).out@ + join_fields(prefix) + (if k > 0 {
                            seq![',']
                        } else {
                            Seq::empty()
                        }) + seq!['"'] + escape_quotes(field@.subrange(0, m as int)));
                    }
                }
                self.out.push('"');
                proof { assert(field@.subrange(0, m as int) =~= field@); }
            } else {
                let mut m: usize = 0;
                while m < field.len()
                    invariant
                        m <= field@.len(),
                        self.out@ == old(self).out@ + join_fields(prefix) + (if k > 0 {
                            seq![',']
                        } else {
                            Seq::empty()
                        }) + field@.subrange(0, m as int),
                    decreases field@.len() - m,
                {
                    self.out.push(field[m]);
                    m = m + 1;
                    proof {
                        assert(self.out@ =~= old(self).out@ + join_fields(prefix) + (if k > 0 {
                            seq![',']
                        } else {
                            Seq::empty()
                        }) + field@.subrange(0, m as int));
                    }
                }
                proof { assert(field@.subrange(0, m as int) =~= field@); }
            }
            proof {
                let next = fields.subrange(0, k + 1);
                assert(next.drop_last() =~= prefix);
                assert(field@ == fields[k as int]);
                if k == 0 {
                    assert(prefix =~= Seq::<Seq<char>>::empty());
                    assert(join_fields(prefix) =~= Seq::<char>::empty());
                }
                assert(self.out@ =~= old(self).out@ + join_fields(next));
            }
            k = k + 1;
        }
        self.out.push('\n');
        proof {
            assert(fields.subrange(0, k as int) =~= fields);
            assert(self.out@ =~= old(self).out@ + encode_record(fields));
        }
    }

    /// Returns the text written so far.
    pub fn text(&self) -> (r: String)
        ensures
            r@ == self.written(),
    {
        string_of(&self.out)
    }
}

/// Whether the field holds a comma, a double quote or a newline.
fn contains_special(field: &Vec<char>) -> (r: bool)
    ensures
        r == (field@.contains(',') || field@.contains('"') || field@.contains('\n')),
{
    let mut i: usize = 0;
    while i < field.len()
        invariant
            i <= field@.len(),
            forall|k: int| 0 <= k < i ==> field@[k] != ',' && field@[k] != '"' && field@[k] != '\n',
        decreases field@.len() - i,
    {
        let c = field[i];
        if c == ',' || c == '"' || c == '\n' {
            proof { assert(field@[i as int] == c); }
            return true;
        }
        i = i + 1;
    }
    false
}

} // verus!

verus! {

/// No field of the record holds a carriage return, which reading drops.
pub open spec fn no_carriage_return(r: Seq<Seq<char>>) -> bool {
    forall|k: int, m: int| 0 <= k < r.len() && 0 <= m < r[k].len() ==> #[trigger] r[k][m] != '\r'
}

proof fn lemma_escape_concat(a: Seq<char>, b: Seq<char>)
    ensures
        escape_quotes(a + b) == escape_quotes(a) + escape_quotes(b),
    decreases b.len(),
{
    if b.len() == 0 {
        assert(a + b =~= a);
        assert(escape_quotes(a) + escape_quotes(b) =~= escape_quotes(a));
    } else {
        assert((a + b).drop_last() =~= a + b.drop_last());
        assert((a + b).last() == b.last());
        lemma_escape_concat(a, b.drop_last());
        let t = if b.last() == '"' { seq!['"', '"'] } else { seq![b.last()] };
        assert(escape_quotes(a) + escape_quotes(b.drop_last()) + t =~= escape_quotes(a) + (
        escape_quotes(b.drop_last()) + t));
    }
}

/// Reading the characters of an unquoted field adds them to the field.
proof fn lemma_parse_plain(
    s: Seq<char>,
    j: nat,
    f: Seq<char>,
    acc: Seq<char>,
    rec: Seq<Seq<char>>,
    m: nat,
)
    requires
        j + f.len() <= s.len(),
        s.subrange(j as int, (j + f.len()) as int) == f,
        forall|k: int|
            0 <= k < f.len() ==> #[trigger] f[k] != ',' && f[k] != '"' && f[k] != '\n' && f[k]
                != '\r',
        m <= f.len(),
    ensures
        parse_record(s, j, acc, rec, false) == parse_record(s, j + m, acc + f.take(m as int), rec, false),
    decreases m,
{
    if m == 0 {
        assert(acc + f.take(0) =~= acc);
    } else {
        lemma_parse_plain(s, j, f, acc, rec, (m - 1) as nat);
        let p = (j + m - 1) as nat;
        assert(s[p as int] == s.subrange(j as int, (j + f.len()) as int)[m - 1]);
        assert((acc + f.take(m - 1)).push(f[m - 1]) =~= acc + f.take(m as int));
    }
}

/// Reading the escaped characters of a quoted field adds the unescaped ones to the field.
proof fn lemma_parse_escaped(
    s: Seq<char>,
    j: nat,
    f: Seq<char>,
    acc: Seq<char>,
    rec: Seq<Seq<char>>,
    m: nat,
)
    requires
        j + escape_quotes(f).len() <= s.len(),
        s.subrange(j as int, (j + escape_quotes(f).len()) as int) == escape_quotes(f),
        forall|k: int| 0 <= k < f.len() ==> #[trigger] f[k] != '\r',
        m <= f.len(),
    ensures
        parse_record(s, j, acc, rec, true) == parse_record(
            s,
            j + escape_quotes(f.take(m as int)).len(),
            acc + f.take(m as int),
            rec,
            true,
        ),
    decreases m,
{
    if m == 0 {
        assert(acc + f.take(0) =~= acc);
        assert(f.take(0) =~= Seq::<char>::empty());
    } else {
        lemma_parse_escaped(s, j, f, acc, rec, (m - 1) as nat);
        let a = f.take(m - 1);
        let c = f[m - 1];
        assert(f.take(m as int).drop_last() =~= a);
        assert(f.take(m as int).last() == c);
        lemma_escape_concat(f.take(m as int), f.skip(m as int));
        assert(f.take(m as int) + f.skip(m as int) =~= f);
        let ea = escape_quotes(a);
        let p = (j + ea.len()) as nat;
        let e = escape_quotes(f);
        assert(e.subrange(0, escape_quotes(f.take(m as int)).len() as int) =~= escape_quotes(f.take(m as int)));
        assert(s[p as int] == e[ea.len() as int]);
        if c == '"' {
            assert(s[(p + 1) as int] == e[(ea.len() + 1) as int]);
            assert(escape_quotes(f.take(m as int)) == ea + seq!['"', '"']);
            assert(s[p as int] == '"');
            assert(s[(p + 1) as int] == '"');
        } else {
            assert(escape_quotes(f.take(m as int)) == ea + seq![c]);
            assert(s[p as int] == c);
        }
        assert((acc + a).push(c) =~= acc + f.take(m as int));
    }
}

/// Reading an encoded field that a comma or a newline follows.
proof fn lemma_parse_field(s: Seq<char>, j: nat, f: Seq<char>, rec: Seq<Seq<char>>, d: char)
    requires
        d == ',' || d == '\n',
        forall|k: int| 0 <= k < f.len() ==> #[trigger] f[k] != '\r',
        j + encode_field(f).len() < s.len(),
        s.subrange(j as int, (j + encode_field(f).len()) as int) == encode_field(f),
        s[(j + encode_field(f).len()) as int] == d,
    ensures
        d == ',' ==> parse_record(s, j, Seq::empty(), rec, false) == parse_record(
            s,
            j + encode_field(f).len() + 1,
            Seq::empty(),
            rec.push(f),
            false,
        ),
        d == '\n' ==> parse_record(s, j, Seq::empty(), rec, false) == (
            Some(rec.push(f)),
            (j + encode_field(f).len() + 1) as nat,
        ),
{
    let e = encode_field(f);
    let end = (j + e.len()) as nat;
    if f.contains(',') || f.contains('"') || f.contains('\n') {
        let x = escape_quotes(f);
        assert(s[j as int] == e[0]);
        assert(s.subrange((j + 1) as int, (j + 1 + x.len()) as int) =~= x) by {
            assert forall|k: int| 0 <= k < x.len() implies s.subrange((j + 1) as int, (j + 1 + x.len()) as int)[k] == x[k] by {
                assert(s[j + 1 + k] == e[1 + k]);
            }
        }
        assert(parse_record(s, j, Seq::empty(), rec, false) == parse_record(s, j + 1, Seq::empty(), rec, true));
        lemma_parse_escaped(s, j + 1, f, Seq::empty(), rec, f.len());
        assert(f.take(f.len() as int) =~= f);
        assert(Seq::<char>::empty() + f =~= f);
        let q = (j + 1 + x.len()) as nat;
        assert(s[q as int] == e[e.len() - 1]);
        assert(q + 1 == end);
        assert(s[(q + 1) as int] == d);
        assert(parse_record(s, q, f, rec, true) == parse_record(s, end, f, rec, false));
        lemma_parse_separator(s, end, f, rec, d);
    } else {
        assert forall|k: int| 0 <= k < f.len() implies #[trigger] f[k] != ',' && f[k] != '"' && f[k] != '\n' && f[k] != '\r' by {
            if f[k] == ',' { assert(f.contains(',')); }
            if f[k] == '"' { assert(f.contains('"')); }
            if f[k] == '\n' { assert(f.contains('\n')); }
        }
        lemma_parse_plain(s, j, f, Seq::empty(), rec, f.len());
        assert(f.take(f.len() as int) =~= f);
        assert(Seq::<char>::empty() + f =~= f);
        lemma_parse_separator(s, end, f, rec, d);
    }
}

/// Reading the comma or newline that ends a field.
proof fn lemma_parse_separator(s: Seq<char>, p: nat, f: Seq<char>, rec: Seq<Seq<char>>, d: char)
    requires
        d == ',' || d == '\n',
        p < s.len(),
        s[p as int] == d,
    ensures
        d == ',' ==> parse_record(s, p, f, rec, false) == parse_record(
            s,
            p + 1,
            Seq::empty(),
            rec.push(f),
            false,
        ),
        d == '\n' ==> parse_record(s, p, f, rec, false) == (Some(rec.push(f)), p + 1),
{
}

proof fn lemma_join_prefix(r: Seq<Seq<char>>, m: int)
    requires
        1 <= m < r.len(),
    ensures
        join_fields(r).len() > join_fields(r.take(m)).len(),
        join_fields(r).take(join_fields(r.take(m)).len() as int) == join_fields(r.take(m)),
        join_fields(r)[join_fields(r.take(m)).len() as int] == ',',
        join_fields(r.take(m + 1)) == join_fields(r.take(m)) + seq![','] + encode_field(r[m]),
    decreases r.len(),
{
    let t = r.take(m + 1);
    assert(t.drop_last() =~= r.take(m));
    assert(t.last() == r[m]);
    if m + 1 == r.len() {
        assert(t =~= r);
    } else {
        lemma_join_prefix(r.drop_last(), m);
        assert(r.drop_last().take(m) =~= r.take(m));
        assert(r.drop_last().take(m + 1) =~= r.take(m + 1));
        let a = join_fields(r.drop_last());
        assert(join_fields(r) == a + seq![','] + encode_field(r.last()));
        let n = join_fields(r.take(m)).len() as int;
        assert((a + seq![','] + encode_field(r.last())).take(n) =~= a.take(n));
    }
}

/// Where field `k` of an encoded record that starts at `i` begins.
spec fn field_start(r: Seq<Seq<char>>, i: nat, k: int) -> nat {
    (i + if k == 0 {
        0
    } else {
        join_fields(r.take(k)).len() + 1
    }) as nat
}

/// Reading the first `k` fields of an encoded record and the comma after each.
proof fn lemma_parse_fields(s: Seq<char>, i: nat, r: Seq<Seq<char>>, k: int)
    requires
        0 <= k < r.len(),
        no_carriage_return(r),
        i + encode_record(r).len() <= s.len(),
        s.subrange(i as int, (i + encode_record(r).len()) as int) == encode_record(r),
    ensures
        parse_record(s, i, Seq::empty(), Seq::empty(), false) == parse_record(
            s,
            field_start(r, i, k),
            Seq::empty(),
            r.take(k),
            false,
        ),
    decreases k,
{
    if k == 0 {
        assert(r.take(0) =~= Seq::<Seq<char>>::empty());
    } else {
        let j = k - 1;
        lemma_parse_fields(s, i, r, j);
        let full = encode_record(r);
        let st = field_start(r, i, j);
        let f = r[j];
        lemma_join_prefix(r, k);
        if j > 0 {
            lemma_join_prefix(r, j);
        } else {
            assert(r.take(1).drop_last() =~= Seq::<Seq<char>>::empty());
            assert(join_fields(r.take(1)) == encode_field(r[0]));
        }
        let jt = join_fields(r.take(k));
        assert(full.take(jt.len() as int) =~= join_fields(r).take(jt.len() as int));
        assert(st + encode_field(f).len() == i + jt.len());
        assert(s.subrange(st as int, (st + encode_field(f).len()) as int) =~= encode_field(f)) by {
            assert forall|t: int| 0 <= t < encode_field(f).len() implies s.subrange(st as int, (st + encode_field(f).len()) as int)[t] == encode_field(f)[t] by {
                assert(s[st + t] == full[st - i + t]);
                assert(full[st - i + t] == jt[st - i + t]);
            }
        }
        assert(s[(i + jt.len()) as int] == full[jt.len() as int]);
        assert forall|m: int| 0 <= m < f.len() implies #[trigger] f[m] != '\r' by {
            assert(r[j][m] != '\r');
        }
        lemma_parse_field(s, st, f, r.take(j), ',');
        assert(r.take(j).push(f) =~= r.take(k));
    }
}

/// Reading an encoded record gives it back and stops right after it.
proof fn lemma_parse_encoded_record(s: Seq<char>, i: nat, r: Seq<Seq<char>>)
    requires
        r.len() > 0,
        no_carriage_return(r),
        i + encode_record(r).len() <= s.len(),
        s.subrange(i as int, (i + encode_record(r).len()) as int) == encode_record(r),
    ensures
        parse_record(s, i, Seq::empty(), Seq::empty(), false) == (
            Some(r),
            (i + encode_record(r).len()) as nat,
        ),
{
    let k = r.len() - 1;
    lemma_parse_fields(s, i, r, k);
    let full = encode_record(r);
    let start = field_start(r, i, k);
    let f = r[k];
    let jr = join_fields(r);
    if k > 0 {
        lemma_join_prefix(r, k);
        assert(r.take(k + 1) =~= r);
    } else {
        assert(r.drop_last() =~= Seq::<Seq<char>>::empty());
        assert(jr == encode_field(r[0]));
    }
    assert(start + encode_field(f).len() == i + jr.len());
    assert(s.subrange(start as int, (start + encode_field(f).len()) as int) =~= encode_field(f)) by {
        assert forall|t: int| 0 <= t < encode_field(f).len() implies s.subrange(start as int, (start + encode_field(f).len()) as int)[t] == encode_field(f)[t] by {
            assert(s[start + t] == full[start - i + t]);
        }
    }
    assert(s[(i + jr.len()) as int] == full[jr.len() as int]);
    assert forall|m: int| 0 <= m < f.len() implies #[trigger] f[m] != '\r' by {
        assert(r[k][m] != '\r');
    }
    lemma_parse_field(s, start, f, r.take(k), '\n');
    assert(r.take(k).push(f) =~= r);
}

proof fn lemma_records_prefix(rs: Seq<Seq<Seq<char>>>, m: int)
    requires
        0 <= m < rs.len(),
    ensures
        encode_records(rs.take(m + 1)) == encode_records(rs.take(m)) + encode_record(rs[m]),
        encode_records(rs).len() >= encode_records(rs.take(m + 1)).len(),
        encode_records(rs).take(encode_records(rs.take(m + 1)).len() as int) == encode_records(
            rs.take(m + 1),
        ),
    decreases rs.len(),
{
    assert(rs.take(m + 1).drop_last() =~= rs.take(m));
    if m + 1 == rs.len() {
        assert(rs.take(m + 1) =~= rs);
    } else {
        lemma_records_prefix(rs.drop_last(), m);
        assert(rs.drop_last().take(m) =~= rs.take(m));
        assert(rs.drop_last().take(m + 1) =~= rs.take(m + 1));
        let a = encode_records(rs.drop_last());
        let n = encode_records(rs.take(m + 1)).len() as int;
        assert((a + encode_record(rs.last())).take(n) =~= a.take(n));
    }
}

proof fn lemma_records_from_encoded(rs: Seq<Seq<Seq<char>>>, k: int)
    requires
        0 <= k <= rs.len(),
        forall|t: int| 0 <= t < rs.len() ==> (#[trigger] rs[t]).len() > 0 && no_carriage_return(rs[t]),
    ensures
        records_from(encode_records(rs), encode_records(rs.take(k)).len()) == rs.skip(k),
    decreases rs.len() - k,
{
    let s = encode_records(rs);
    if k == rs.len() {
        assert(rs.take(k) =~= rs);
        assert(parse_record(s, s.len(), Seq::empty(), Seq::empty(), false).0.is_none());
        assert(rs.skip(k) =~= Seq::<Seq<Seq<char>>>::empty());
    } else {
        lemma_records_prefix(rs, k);
        let i = encode_records(rs.take(k)).len();
        let e = encode_record(rs[k]);
        let p = encode_records(rs.take(k + 1));
        assert(s.subrange(i as int, (i + e.len()) as int) =~= e) by {
            assert forall|t: int| 0 <= t < e.len() implies s.subrange(i as int, (i + e.len()) as int)[t] == e[t] by {
                assert(s[i + t] == p[i + t]);
            }
        }
        lemma_parse_encoded_record(s, i, rs[k]);
        lemma_records_from_encoded(rs, k + 1);
        assert(seq![rs[k]] + rs.skip(k + 1) =~= rs.skip(k));
    }
}

/// Encoding records, none of them empty and no field holding a carriage return, and reading
/// the text back gives the same records.
pub proof fn lemma_csv_round_trip(rows: Seq<Seq<Seq<char>>>)
    requires
        forall|t: int| 0 <= t < rows.len() ==> (#[trigger] rows[t]).len() > 0 && no_carriage_return(rows[t]),
    ensures
        records_of(encode_records(rows)) == rows,
{
    lemma_records_from_encoded(rows, 0);
    assert(rows.take(0) =~= Seq::<Seq<Seq<char>>>::empty());
    assert(rows.skip(0) =~= rows);
}

} // verus!
