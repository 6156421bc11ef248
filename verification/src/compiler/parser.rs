//! The pseudo-SQL front end and the query-to-circuit compiler.
use vstd::prelude::*;
use vstd::std_specs::iter::IteratorSpec;
use crate::compiler::{GateView, QuantumCircuitPlan, QuantumGate, QuantumQuery, QueryOperator, QueryView, gates_view, lemma_gates_view_push};
use crate::text::{chars_of, push_char, string_from_chars, text_is};

verus! {

/// Errors of the query front end.
#[derive(Debug)]
pub enum CompilerError {
    InvalidSyntax(String),
    UnsupportedOperator(String),
}

/// The query front end and circuit compiler (a namespace without state).
pub struct QuantumCompiler;

/// Unicode `White_Space`, the set that `char::is_whitespace` tests.
pub open spec fn is_white_space(c: char) -> bool {
    let u = c as u32;
    (0x9 <= u <= 0xd) || u == 0x20 || u == 0x85 || u == 0xa0 || u == 0x1680 || (0x2000 <= u <= 0x200a)
        || u == 0x2028 || u == 0x2029 || u == 0x202f || u == 0x205f || u == 0x3000
}

fn white_space(c: char) -> (r: bool)
    ensures
        r == is_white_space(c),
{
    let u = c as u32;
    (0x9 <= u && u <= 0xd) || u == 0x20 || u == 0x85 || u == 0xa0 || u == 0x1680 || (0x2000 <= u && u
        <= 0x200a) || u == 0x2028 || u == 0x2029 || u == 0x202f || u == 0x205f || u == 0x3000
}

/// Scanning state after reading `s`: the finished words and the word being read.
pub open spec fn scan_words(s: Seq<char>) -> (Seq<Seq<char>>, Seq<char>)
    decreases s.len(),
{
    if s.len() == 0 {
        (seq![], seq![])
    } else {
        let (done, cur) = scan_words(s.drop_last());
        let c = s.last();
        if is_white_space(c) {
            if cur.len() > 0 {
                (done.push(cur), seq![])
            } else {
                (done, seq![])
            }
        } else {
            (done, cur.push(c))
        }
    }
}

/// The maximal runs of non-white-space characters of `s`, in order
/// (what `str::split_whitespace` yields).
pub open spec fn whitespace_words(s: Seq<char>) -> Seq<Seq<char>> {
    let (done, cur) = scan_words(s);
    if cur.len() > 0 {
        done.push(cur)
    } else {
        done
    }
}

/// The characters of each string.
pub open spec fn strings_view(v: Seq<String>) -> Seq<Seq<char>> {
    v.map_values(|s: String| s@)
}

/// `s` with every `'` and `"` removed.
pub open spec fn without_quotes(s: Seq<char>) -> Seq<char>
    decreases s.len(),
{
    if s.len() == 0 {
        seq![]
    } else if s.last() == '\'' || s.last() == '"' {
        without_quotes(s.drop_last())
    } else {
        without_quotes(s.drop_last()).push(s.last())
    }
}

/// The message of the syntax error.
pub open spec fn syntax_message() -> Seq<char> {
    "Query must match format: SELECT * FROM <collection> WHERE <field> <op> <value>"@
}

/// What a query made of `words` comes to, given the upper-case form of its first word.
pub enum ParseOutcome {
    Parsed(QueryView),
    BadSyntax,
    BadOperator(Seq<char>),
}

/// The operator that a word names, if any.
pub open spec fn operator_of(word: Seq<char>) -> Option<QueryOperator> {
    if word == "="@ {
        Some(QueryOperator::Equal)
    } else if word == ">"@ {
        Some(QueryOperator::GreaterThan)
    } else if word == "<"@ {
        Some(QueryOperator::LessThan)
    } else {
        None
    }
}

/// The outcome of parsing the words of a query, given the upper-case forms
/// of its first, third and fifth words: the words must follow
/// `SELECT * FROM <collection> WHERE <field> <op> <value>` (at least eight
/// words; the first, third and fifth read `SELECT`, `FROM` and `WHERE` once
/// upper-cased, the second is `*`); the collection is the fourth word, the
/// field the sixth, the operator the seventh and the value the eighth with
/// its quote characters removed.
pub open spec fn parse_outcome(
    words: Seq<Seq<char>>,
    first_upper: Seq<char>,
    third_upper: Seq<char>,
    fifth_upper: Seq<char>,
) -> ParseOutcome {
    if words.len() < 8 || first_upper != "SELECT"@ || words[1] != "*"@ || third_upper != "FROM"@ || fifth_upper
        != "WHERE"@ {
        ParseOutcome::BadSyntax
    } else {
        match operator_of(words[6]) {
            Some(op) => ParseOutcome::Parsed(
                QueryView {
                    target_collection: words[3],
                    field: words[5],
                    operator: op,
                    value: without_quotes(words[7]),
                },
            ),
            None => ParseOutcome::BadOperator(words[6]),
        }
    }
}

/// The outcome of parsing a query text.
pub open spec fn query_outcome(text: Seq<char>) -> ParseOutcome {
    let words = whitespace_words(text);
    if words.len() < 8 {
        ParseOutcome::BadSyntax
    } else {
        parse_outcome(words, upper_form(words[0]), upper_form(words[2]), upper_form(words[4]))
    }
}

/// Whether every character of a text is ASCII.
pub open spec fn is_ascii_text(s: Seq<char>) -> bool {
    forall|i: int| 0 <= i < s.len() ==> (#[trigger] s[i] as u32) < 128
}

/// The ASCII upper-case form of a character: `a` to `z` become `A` to `Z`;
/// every other character is kept.
pub open spec fn ascii_upper(c: char) -> char {
    let u = c as u32;
    if 97 <= u <= 122 {
        (u - 32) as char
    } else {
        c
    }
}

/// The upper-case form of a word: for an ASCII word, its characters
/// upper-cased one by one; otherwise `uppercase_text` of it.
pub open spec fn upper_form(w: Seq<char>) -> Seq<char> {
    if is_ascii_text(w) {
        w.map_values(|c: char| ascii_upper(c))
    } else {
        uppercase_text(w)
    }
}

/// Words joined by single spaces.
pub open spec fn spaced(ws: Seq<Seq<char>>) -> Seq<char>
    decreases ws.len(),
{
    if ws.len() == 0 {
        seq![]
    } else if ws.len() == 1 {
        ws[0]
    } else {
        spaced(ws.drop_last()) + seq![' '] + ws.last()
    }
}

/// Whether a text holds no white space.
pub open spec fn no_white_space(w: Seq<char>) -> bool {
    forall|i: int| 0 <= i < w.len() ==> !is_white_space(#[trigger] w[i])
}

/// Whether a word is non-empty and holds no white space.
pub open spec fn plain_word(w: Seq<char>) -> bool {
    w.len() > 0 && no_white_space(w)
}

proof fn lemma_scan_append_word(a: Seq<char>, w: Seq<char>)
    requires
        no_white_space(w),
    ensures
        scan_words(a + w) == (scan_words(a).0, scan_words(a).1 + w),
    decreases w.len(),
{
    if w.len() == 0 {
        assert(a + w =~= a);
        assert(scan_words(a).1 + w =~= scan_words(a).1);
    } else {
        let d = w.drop_last();
        assert(no_white_space(d)) by {
            assert forall|i: int| 0 <= i < d.len() implies !is_white_space(#[trigger] d[i]) by {
                assert(d[i] == w[i]);
            }
        }
        lemma_scan_append_word(a, d);
        assert((a + w).drop_last() =~= a + d);
        assert((a + w).last() == w[w.len() - 1]);
        assert((scan_words(a).1 + d).push(w.last()) =~= scan_words(a).1 + w);
    }
}

proof fn lemma_scan_spaced(ws: Seq<Seq<char>>)
    requires
        ws.len() > 0,
        forall|i: int| 0 <= i < ws.len() ==> #[trigger] plain_word(ws[i]),
    ensures
        scan_words(spaced(ws)) == (ws.drop_last(), ws.last()),
    decreases ws.len(),
{
    assert(plain_word(ws[ws.len() - 1]));
    if ws.len() == 1 {
        lemma_scan_append_word(seq![], ws[0]);
        assert(Seq::<char>::empty() + ws[0] =~= ws[0]);
        assert(scan_words(seq![]) == (Seq::<Seq<char>>::empty(), Seq::<char>::empty()));
        assert(Seq::<char>::empty() + ws[0] =~= ws[0]);
        assert(ws.drop_last() =~= Seq::<Seq<char>>::empty());
    } else {
        let d = ws.drop_last();
        assert forall|i: int| 0 <= i < d.len() implies #[trigger] plain_word(d[i]) by {
            assert(d[i] == ws[i]);
        }
        lemma_scan_spaced(d);
        let t = spaced(d);
        assert(plain_word(d[d.len() - 1]));
        assert(is_white_space(' ')) by {
            assert((' ' as u32) == 0x20);
        }
        assert(t.push(' ').drop_last() =~= t);
        assert(scan_words(t.push(' ')) == (d.drop_last().push(d.last()), Seq::<char>::empty()));
        assert(d.drop_last().push(d.last()) =~= d);
        lemma_scan_append_word(t.push(' '), ws.last());
        assert(spaced(ws) =~= t.push(' ') + ws.last());
        assert(Seq::<char>::empty() + ws.last() =~= ws.last());
    }
}

/// Words joined by single spaces split back into those words.
pub proof fn lemma_words_of_spaced(ws: Seq<Seq<char>>)
    requires
        forall|i: int| 0 <= i < ws.len() ==> #[trigger] plain_word(ws[i]),
    ensures
        whitespace_words(spaced(ws)) == ws,
{
    if ws.len() == 0 {
        assert(scan_words(seq![]) == (Seq::<Seq<char>>::empty(), Seq::<char>::empty()));
    } else {
        lemma_scan_spaced(ws);
        assert(plain_word(ws[ws.len() - 1]));
        assert(ws.drop_last().push(ws.last()) =~= ws);
    }
}

proof fn lemma_without_quotes_append(a: Seq<char>, b: Seq<char>)
    ensures
        without_quotes(a + b) == without_quotes(a) + without_quotes(b),
    decreases b.len(),
{
    if b.len() == 0 {
        assert(a + b =~= a);
        assert(without_quotes(a) + without_quotes(b) =~= without_quotes(a));
    } else {
        lemma_without_quotes_append(a, b.drop_last());
        assert((a + b).drop_last() =~= a + b.drop_last());
        assert((a + b).last() == b.last());
        if b.last() == '\'' || b.last() == '"' {
        } else {
            assert(without_quotes(a + b) =~= without_quotes(a) + without_quotes(b));
        }
    }
}

proof fn lemma_without_quotes_none(s: Seq<char>)
    requires
        forall|i: int| 0 <= i < s.len() ==> #[trigger] s[i] != '\'' && s[i] != '"',
    ensures
        without_quotes(s) == s,
    decreases s.len(),
{
    if s.len() > 0 {
        let d = s.drop_last();
        assert forall|i: int| 0 <= i < d.len() implies #[trigger] d[i] != '\'' && d[i] != '"' by {
            assert(d[i] == s[i]);
        }
        lemma_without_quotes_none(d);
        assert(s.last() == s[s.len() - 1]);
        assert(d.push(s.last()) =~= s);
    }
}

/// The words of `SELECT * FROM <collection> WHERE <field> = '<value>'`.
pub open spec fn select_words(collection: Seq<char>, field: Seq<char>, value: Seq<char>) -> Seq<Seq<char>> {
    seq!["SELECT"@, "*"@, "FROM"@, collection, "WHERE"@, field, "="@, seq!['\''] + value + seq!['\'']]
}

/// An equality query parses as written: `SELECT * FROM c WHERE f = 'v'`
/// (words separated by single spaces; `c` and `f` plain words, `v` without
/// white space or quote characters) asks collection `c` for the records
/// whose field `f` holds `v`.
pub proof fn lemma_parse_select(collection: Seq<char>, field: Seq<char>, value: Seq<char>)
    requires
        plain_word(collection),
        plain_word(field),
        no_white_space(value),
        forall|i: int| 0 <= i < value.len() ==> #[trigger] value[i] != '\'' && value[i] != '"',
    ensures
        query_outcome(spaced(select_words(collection, field, value))) == ParseOutcome::Parsed(
            QueryView { target_collection: collection, field, operator: QueryOperator::Equal, value },
        ),
{
    reveal_strlit("SELECT");
    reveal_strlit("*");
    reveal_strlit("FROM");
    reveal_strlit("WHERE");
    reveal_strlit("=");
    let ws = select_words(collection, field, value);
    let q = seq!['\''];
    let quoted = q + value + q;
    assert(no_white_space(quoted)) by {
        assert forall|i: int| 0 <= i < quoted.len() implies !is_white_space(#[trigger] quoted[i]) by {
            if 0 < i < quoted.len() - 1 {
                assert(quoted[i] == value[i - 1]);
            }
        }
    }
    assert forall|i: int| 0 <= i < ws.len() implies #[trigger] plain_word(ws[i]) by {
        if i == 0 {
            assert(ws[0] =~= seq!['S', 'E', 'L', 'E', 'C', 'T']);
        } else if i == 1 {
            assert(ws[1] =~= seq!['*']);
        } else if i == 2 {
            assert(ws[2] =~= seq!['F', 'R', 'O', 'M']);
        } else if i == 4 {
            assert(ws[4] =~= seq!['W', 'H', 'E', 'R', 'E']);
        } else if i == 6 {
            assert(ws[6] =~= seq!['=']);
        }
    }
    lemma_words_of_spaced(ws);
    let w0 = ws[0];
    assert(w0 =~= seq!['S', 'E', 'L', 'E', 'C', 'T']);
    assert(is_ascii_text(w0));
    assert(w0.map_values(|c: char| ascii_upper(c)) =~= w0);
    assert(upper_form(w0) == "SELECT"@);
    let w2 = ws[2];
    assert(w2 =~= seq!['F', 'R', 'O', 'M']);
    assert(is_ascii_text(w2));
    assert(w2.map_values(|c: char| ascii_upper(c)) =~= w2);
    let w4 = ws[4];
    assert(w4 =~= seq!['W', 'H', 'E', 'R', 'E']);
    assert(is_ascii_text(w4));
    assert(w4.map_values(|c: char| ascii_upper(c)) =~= w4);
    lemma_without_quotes_append(q + value, q);
    lemma_without_quotes_append(q, value);
    lemma_without_quotes_none(value);
    assert(without_quotes(q) =~= Seq::<char>::empty()) by {
        assert(q.drop_last() =~= Seq::<char>::empty());
        assert(without_quotes(q.drop_last()) =~= Seq::<char>::empty());
        assert(q.last() == '\'');
    }
    assert(without_quotes(quoted) =~= value);
    assert(operator_of(ws[6]) == Some(QueryOperator::Equal));
}

/// Whether a parse result is the given outcome.
pub open spec fn parse_result_is(r: Result<QuantumQuery, CompilerError>, o: ParseOutcome) -> bool {
    match r {
        Ok(q) => o == ParseOutcome::Parsed(q@),
        Err(CompilerError::InvalidSyntax(m)) => o == ParseOutcome::BadSyntax && m@ == syntax_message(),
        Err(CompilerError::UnsupportedOperator(w)) => o == ParseOutcome::BadOperator(w@),
    }
}

/// The upper-case form of a text, as `str::to_uppercase` computes it.
pub uninterp spec fn uppercase_text(s: Seq<char>) -> Seq<char>;

/// `str::to_uppercase`: its result is `uppercase_text` of the argument.  On
/// ASCII text the Unicode upper-case mapping that it applies turns `a` to
/// `z` into `A` to `Z` and keeps every other character, one for one; the
/// full mapping beyond ASCII is not written out here.
#[verifier::external_body]
fn str_to_uppercase(s: &str) -> (r: String)
    ensures
        r@ == uppercase_text(s@),
        is_ascii_text(s@) ==> r@ == s@.map_values(|c: char| ascii_upper(c)),
{
    s.to_uppercase()
}

/// The name that `Debug` prints for an operator.
pub open spec fn operator_name(op: QueryOperator) -> Seq<char> {
    match op {
        QueryOperator::Equal => "Equal"@,
        QueryOperator::GreaterThan => "GreaterThan"@,
        QueryOperator::LessThan => "LessThan"@,
    }
}

/// The oracle signature of a query: `field:value:Operator`.
pub open spec fn oracle_signature(q: QueryView) -> Seq<char> {
    q.field + ":"@ + q.value + ":"@ + operator_name(q.operator)
}

/// Number of data qubits of a compiled search circuit.
pub const DATA_QUBITS: usize = 8;

/// The gates of the search circuit for an oracle signature: a Hadamard on
/// each data qubit, the oracle, then a Hadamard and a Pauli-X on each data
/// qubit in turn.
pub open spec fn search_circuit_gates(signature: Seq<char>) -> Seq<GateView> {
    Seq::new(8, |i: int| GateView::H(i as usize)) + seq![GateView::Oracle(signature)] + Seq::new(
        16,
        |i: int|
            if i % 2 == 0 {
                GateView::H((i / 2) as usize)
            } else {
                GateView::X((i / 2) as usize)
            },
    )
}

/// The oracle of a compiled query names the query's own comparison: the
/// search circuit's ninth gate is the oracle for `field:value:` followed by
/// `Equal`, `GreaterThan` or `LessThan`, the name of the query's operator.
pub proof fn lemma_oracle_names_comparison(q: QueryView)
    ensures
        search_circuit_gates(oracle_signature(q))[8] == GateView::Oracle(oracle_signature(q)),
        q.operator == QueryOperator::Equal ==> oracle_signature(q) == q.field + ":"@ + q.value + ":Equal"@,
        q.operator == QueryOperator::GreaterThan ==> oracle_signature(q) == q.field + ":"@ + q.value
            + ":GreaterThan"@,
        q.operator == QueryOperator::LessThan ==> oracle_signature(q) == q.field + ":"@ + q.value + ":LessThan"@,
{
    reveal_strlit(":");
    reveal_strlit("Equal");
    reveal_strlit("GreaterThan");
    reveal_strlit("LessThan");
    reveal_strlit(":Equal");
    reveal_strlit(":GreaterThan");
    reveal_strlit(":LessThan");
    let head = q.field + ":"@ + q.value;
    assert(":"@ + "Equal"@ =~= ":Equal"@);
    assert(":"@ + "GreaterThan"@ =~= ":GreaterThan"@);
    assert(":"@ + "LessThan"@ =~= ":LessThan"@);
    assert(head + ":"@ + "Equal"@ =~= head + ":Equal"@);
    assert(head + ":"@ + "GreaterThan"@ =~= head + ":GreaterThan"@);
    assert(head + ":"@ + "LessThan"@ =~= head + ":LessThan"@);
}

/// A parsed query carries the comparison its seventh word writes: `=` gives
/// `Equal`, `>` gives `GreaterThan`, `<` gives `LessThan`, and any other
/// word is refused as an unsupported operator.
pub proof fn lemma_parsed_comparison(
    words: Seq<Seq<char>>,
    first_upper: Seq<char>,
    third_upper: Seq<char>,
    fifth_upper: Seq<char>,
)
    ensures
        parse_outcome(words, first_upper, third_upper, fifth_upper) matches ParseOutcome::Parsed(qv) ==> {
            &&& (words[6] == "="@ <==> qv.operator == QueryOperator::Equal)
            &&& (words[6] == ">"@ <==> qv.operator == QueryOperator::GreaterThan)
            &&& (words[6] == "<"@ <==> qv.operator == QueryOperator::LessThan)
        },
        parse_outcome(words, first_upper, third_upper, fifth_upper) matches ParseOutcome::BadOperator(w) ==> w
            == words[6] && w != "="@ && w != ">"@ && w != "<"@,
{
    reveal_strlit("=");
    reveal_strlit(">");
    reveal_strlit("<");
    assert("="@ != ">"@) by {
        assert("="@[0] != ">"@[0]);
    }
    assert("="@ != "<"@) by {
        assert("="@[0] != "<"@[0]);
    }
    assert(">"@ != "<"@) by {
        assert(">"@[0] != "<"@[0]);
    }
}

impl QuantumCompiler {
    /// Splits a text into its white-space separated words.
    pub fn split_words(text: &str) -> (words: Vec<String>)
        ensures
            strings_view(words@) == whitespace_words(text@),
    {
        let mut words: Vec<String> = Vec::new();
        let mut cur: Vec<char> = Vec::new();
        let ghost whole = text@;
        for c in it: text.chars()
            invariant
                it.seq() == whole,
                strings_view(words@) == scan_words(whole.take(it.index() as int)).0,
                cur@ == scan_words(whole.take(it.index() as int)).1,
        {
            let ghost prefix = whole.take(it.index() as int);
            let ghost next = whole.take(it.index() + 1);
            assert(next.drop_last() == prefix);
            assert(next.last() == c);
            if white_space(c) {
                if cur.len() > 0 {
                    let w = string_from_chars(cur.as_slice());
                    words.push(w);
                    assert(strings_view(words@) == scan_words(prefix).0.push(cur@));
                }
                cur = Vec::new();
            } else {
                cur.push(c);
            }
        }
        assert(whole.take(whole.len() as int) == whole);
        if cur.len() > 0 {
            let w = string_from_chars(cur.as_slice());
            words.push(w);
            assert(strings_view(words@) == scan_words(whole).0.push(cur@));
        }
        words
    }

    /// Removes every `'` and `"` from a text.
    pub fn strip_quotes(text: &str) -> (r: String)
        ensures
            r@ == without_quotes(text@),
    {
        let cs = chars_of(text);
        let mut r = String::new();
        let mut i: usize = 0;
        while i < cs.len()
            invariant
                i <= cs@.len(),
                r@ == without_quotes(cs@.take(i as int)),
            decreases cs@.len() - i,
        {
            assert(cs@.take(i + 1).drop_last() == cs@.take(i as int));
            if cs[i] != '\'' && cs[i] != '"' {
                push_char(&mut r, cs[i]);
            }
            i += 1;
        }
        assert(cs@.take(cs@.len() as int) == cs@);
        r
    }

    /// Builds a query from its words, given the upper-case forms of its
    /// first, third and fifth words.
    pub fn build_query(
        words: &Vec<String>,
        first_upper: &str,
        third_upper: &str,
        fifth_upper: &str,
    ) -> (r: Result<QuantumQuery, CompilerError>)
        ensures
            parse_result_is(r, parse_outcome(strings_view(words@), first_upper@, third_upper@, fifth_upper@)),
    {
        if words.len() < 8 || !text_is(first_upper, "SELECT") || !text_is(words[1].as_str(), "*") || !text_is(
            third_upper,
            "FROM",
        ) || !text_is(fifth_upper, "WHERE") {
            proof {
                if words@.len() >= 8 {
                    assert(strings_view(words@)[1] == words@[1]@);
                }
            }
            return Err(CompilerError::InvalidSyntax(
                "Query must match format: SELECT * FROM <collection> WHERE <field> <op> <value>".to_owned(),
            ));
        }
        assert(strings_view(words@)[1] == words@[1]@);
        let ghost ws = strings_view(words@);
        assert(ws[3] == words@[3]@ && ws[5] == words@[5]@ && ws[6] == words@[6]@ && ws[7] == words@[7]@);
        let target_collection = words[3].clone();
        let field = words[5].clone();
        let op_word = words[6].as_str();
        let operator = if text_is(op_word, "=") {
            QueryOperator::Equal
        } else if text_is(op_word, ">") {
            QueryOperator::GreaterThan
        } else if text_is(op_word, "<") {
            QueryOperator::LessThan
        } else {
            return Err(CompilerError::UnsupportedOperator(words[6].clone()));
        };
        let value = Self::strip_quotes(words[7].as_str());
        Ok(QuantumQuery { target_collection, field, operator, value })
    }

    /// Parses a classical pseudo-SQL query string into a structural query.
    /// Example input: `SELECT * FROM users WHERE age = 42`.
    pub fn parse_query(query_str: &str) -> (r: Result<QuantumQuery, CompilerError>)
        ensures
            parse_result_is(r, query_outcome(query_str@)),
    {
        let words = Self::split_words(query_str);
        if words.len() < 8 {
            return Err(CompilerError::InvalidSyntax(
                "Query must match format: SELECT * FROM <collection> WHERE <field> <op> <value>".to_owned(),
            ));
        }
        let first_upper = str_to_uppercase(words[0].as_str());
        let third_upper = str_to_uppercase(words[2].as_str());
        let fifth_upper = str_to_uppercase(words[4].as_str());
        assert(strings_view(words@)[0] == words@[0]@);
        assert(strings_view(words@)[2] == words@[2]@);
        assert(strings_view(words@)[4] == words@[4]@);
        Self::build_query(&words, first_upper.as_str(), third_upper.as_str(), fifth_upper.as_str())
    }

    /// Compiles a query into its search circuit: eight data qubits in
    /// superposition, the oracle for the query, then the diffusion layer,
    /// on a register of nine qubits (one ancilla).
    pub fn compile_to_circuit(query: &QuantumQuery) -> (plan: QuantumCircuitPlan)
        ensures
            plan@.required_qubits == 9,
            plan@.gates == search_circuit_gates(oracle_signature(query@)),
    {
        let mut gates: Vec<QuantumGate> = Vec::new();
        let mut i: usize = 0;
        while i < DATA_QUBITS
            invariant
                i <= 8,
                gates_view(gates@) == Seq::new(i as nat, |k: int| GateView::H(k as usize)),
            decreases 8 - i,
        {
            let ghost before = gates@;
            gates.push(QuantumGate::H(i));
            proof { lemma_gates_view_push(before, QuantumGate::H(i)); }
            assert(gates_view(gates@) =~= Seq::new((i + 1) as nat, |k: int| GateView::H(k as usize)));
            i += 1;
        }
        let mut signature = query.field.clone();
        signature.append(":");
        signature.append(query.value.as_str());
        signature.append(":");
        match query.operator {
            QueryOperator::Equal => signature.append("Equal"),
            QueryOperator::GreaterThan => signature.append("GreaterThan"),
            QueryOperator::LessThan => signature.append("LessThan"),
        }
        let ghost before = gates@;
        let oracle = QuantumGate::Oracle(signature);
        gates.push(oracle);
        proof { lemma_gates_view_push(before, oracle); }
        let ghost head = gates_view(gates@);
        assert(head =~= Seq::new(8, |k: int| GateView::H(k as usize)) + seq![GateView::Oracle(oracle_signature(query@))]);
        let mut j: usize = 0;
        while j < DATA_QUBITS
            invariant
                j <= 8,
                gates_view(gates@) == head + Seq::new(
                    (2 * j) as nat,
                    |k: int|
                        if k % 2 == 0 {
                            GateView::H((k / 2) as usize)
                        } else {
                            GateView::X((k / 2) as usize)
                        },
                ),
            decreases 8 - j,
        {
            let ghost before = gates@;
            gates.push(QuantumGate::H(j));
            let ghost middle = gates@;
            gates.push(QuantumGate::X(j));
            proof {
                lemma_gates_view_push(before, QuantumGate::H(j));
                lemma_gates_view_push(middle, QuantumGate::X(j));
            }
            assert(gates_view(gates@) =~= head + Seq::new(
                (2 * (j + 1)) as nat,
                |k: int|
                    if k % 2 == 0 {
                        GateView::H((k / 2) as usize)
                    } else {
                        GateView::X((k / 2) as usize)
                    },
            ));
            j += 1;
        }
        QuantumCircuitPlan { required_qubits: DATA_QUBITS + 1, execution_gates: gates }
    }
}

} // verus!
