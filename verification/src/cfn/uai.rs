use vstd::prelude::*;
use vstd::string::StringExecFns;

use crate::cfn::cost_function_network::{strictly_increasing, CostFunctionNetwork, FactorScope};
use crate::cfn::text::{
    digits_value, is_digit, is_whitespace, is_word, lemma_parse_all_prefix_none, lemma_words_append_space,
    lemma_words_append_word, parse_all, parse_usize, parse_usize_spec, split_whitespace, trim, trim_text,
    unsigned_part, words,
};

verus! {

/// States for reading UAI files.
#[derive(Clone, Copy)]
pub enum UAIState {
    ModelType,
    NumberOfVariables,
    DomainSizes,
    NumberOfFunctions,
    /// stores the function index
    FunctionScopes(usize),
    /// stores the function index
    NumberOfTableValues(usize),
    /// stores the function index, how many entries were read, and the function table size
    TableValues(usize, usize, usize),
    EndOfFile,
}

/// The decimal digit character for `d` (`0 <= d < 10`).
pub open spec fn digit_char(d: nat) -> char {
    ('0' as u32 + d) as char
}

/// The decimal representation of `n`, without leading zeros.
pub open spec fn decimal(n: nat) -> Seq<char>
    decreases n,
{
    if n < 10 {
        seq![digit_char(n)]
    } else {
        decimal(n / 10).push(digit_char(n % 10))
    }
}

/// The text written for an optional value: its decimal representation, or `None`.
pub open spec fn option_text(option: Option<usize>) -> Seq<char> {
    match option {
        Some(value) => decimal(value as nat),
        None => seq!['N', 'o', 'n', 'e'],
    }
}

/// The decimal representations of `values`.
pub open spec fn decimals(values: Seq<usize>) -> Seq<Seq<char>> {
    values.map_values(|v: usize| decimal(v as nat))
}

/// The texts of `parts` separated by single spaces.
pub open spec fn join_with_spaces(parts: Seq<Seq<char>>) -> Seq<char>
    decreases parts.len(),
{
    if parts.len() == 0 {
        Seq::empty()
    } else if parts.len() == 1 {
        parts[0]
    } else {
        join_with_spaces(parts.drop_last()) + seq![' '] + parts.last()
    }
}

/// The text that `vec_to_string` writes for `values`: their decimal representations,
/// separated by single spaces.
pub open spec fn vec_text(values: Seq<usize>) -> Seq<char> {
    join_with_spaces(decimals(values))
}

/// What `string_to_vec` reads from `text`: each whitespace-separated word as a `usize`, or
/// `None` where a word is no `usize`.
pub open spec fn text_values(text: Seq<char>) -> Option<Seq<usize>> {
    parse_all(words(text))
}

/// Calls `ToString::to_string` on a `usize`, which writes its decimal representation.
#[verifier::external_body]
pub(crate) fn usize_to_string(value: usize) -> (text: String)
    ensures
        text@ == decimal(value as nat),
{
    value.to_string()
}

/// Writes `values` in decimal, separated by single spaces.
pub fn vec_to_string(vec: &Vec<usize>) -> (text: String)
    ensures
        text@ == vec_text(vec@),
{
    let ghost parts = decimals(vec@);
    let mut text = String::new();
    for i in 0..vec.len()
        invariant
            parts == decimals(vec@),
            text@ == join_with_spaces(parts.take(i as int)),
    {
        assert(parts.take(i + 1).drop_last() =~= parts.take(i as int));
        let part = usize_to_string(vec[i]);
        if i != 0 {
            text.append(" ");
            proof {
                reveal_strlit(" ");
            }
        }
        text.append(part.as_str());
        assert(text@ =~= join_with_spaces(parts.take(i + 1)));
    }
    assert(parts.take(vec.len() as int) =~= parts);
    text
}

/// Writes the results of `mapping` on `values` in decimal, separated by single spaces.
pub fn vec_mapping_to_string<F: Fn(&usize) -> usize>(vec: &Vec<usize>, mapping: F) -> (text: String)
    requires
        forall|i: int| 0 <= i < vec@.len() ==> call_requires(mapping, (&vec@[i],)),
    ensures
        exists|mapped: Seq<usize>|
            #![trigger decimals(mapped)]
            {
                &&& mapped.len() == vec@.len()
                &&& forall|i: int|
                    0 <= i < vec@.len() ==> call_ensures(mapping, (&vec@[i],), #[trigger] mapped[i])
                &&& text@ == join_with_spaces(decimals(mapped))
            },
{
    let mut mapped: Vec<usize> = Vec::new();
    for i in 0..vec.len()
        invariant
            forall|i: int| 0 <= i < vec@.len() ==> call_requires(mapping, (&vec@[i],)),
            mapped@.len() == i,
            forall|j: int| 0 <= j < i ==> call_ensures(mapping, (&vec@[j],), #[trigger] mapped@[j]),
    {
        mapped.push(mapping(&vec[i]));
    }
    let text = vec_to_string(&mapped);
    assert(mapped@.len() == vec@.len());
    text
}

/// Writes an optional value in decimal, or `None`.
pub fn option_to_string(option: Option<usize>) -> (text: String)
    ensures
        text@ == option_text(option),
{
    match option {
        Some(value) => usize_to_string(value),
        None => {
            proof {
                reveal_strlit("None");
            }
            String::from_str("None")
        },
    }
}

/// Reads each word of `text` as a `usize`; `None` where a word is no `usize`.
pub fn string_to_vec(text: &str) -> (values: Option<Vec<usize>>)
    ensures
        match values {
            Some(v) => text_values(text@) == Some(v@),
            None => text_values(text@) is None,
        },
{
    let tokens = split_whitespace(text);
    let ghost texts = tokens@.map_values(|t: String| t@);
    let mut values: Vec<usize> = Vec::new();
    let mut i: usize = 0;
    while i < tokens.len()
        invariant
            texts == tokens@.map_values(|t: String| t@),
            words(text@) == texts,
            i <= tokens@.len(),
            parse_all(texts.take(i as int)) == Some(values@),
        decreases tokens@.len() - i,
    {
        assert(texts.take(i + 1).drop_last() =~= texts.take(i as int));
        assert(texts.take(i + 1).last() == tokens@[i as int]@);
        match parse_usize(tokens[i].as_str()) {
            Some(value) => {
                values.push(value);
            },
            None => {
                proof {
                    assert(parse_usize_spec(texts.take(i + 1).last()) is None);
                    assert(parse_all(texts.take(i + 1)) is None);
                    lemma_parse_all_prefix_none(texts, i + 1);
                }
                return None;
            },
        }
        i = i + 1;
    }
    assert(texts.take(i as int) =~= texts);
    Some(values)
}


/// Why a text is no model that `read_uai` accepts.
#[derive(Clone, Copy, PartialEq, Eq, Structural, Debug)]
pub enum UaiError {
    /// the model type is not `MARKOV`
    UnsupportedModelType,
    /// a number is not written as a `usize`
    InvalidNumber,
    /// the number of domain sizes differs from the number of variables
    DomainSizesMismatch,
    /// a scope's length differs from the number of variables listed in it
    ScopeLengthMismatch,
    /// a scope names a variable that the network does not have
    VariableOutOfRange,
    /// the variables of a scope are not distinct and increasing
    UnsortedScope,
    /// a function table refers to a function whose scope was not read
    FunctionIndexOutOfBounds,
    /// a function table has more entries than announced
    TooManyEntries,
    /// a function table's number of entries is not the product of the domain sizes of its
    /// scope
    TableSizeMismatch,
}

/// What has been read of a UAI model after some lines.
pub struct UaiProgress {
    pub state: UAIState,
    pub num_variables: usize,
    pub domain_sizes: Seq<usize>,
    pub num_functions: usize,
    /// the scopes read so far
    pub scopes: Seq<Seq<usize>>,
    /// the entries read so far of the function table being read
    pub entries: Seq<Seq<char>>,
    /// whether the network has been created with the domain sizes
    pub network_created: bool,
    /// the functions completed so far (scope and table entries), in order
    pub functions: Seq<(Seq<usize>, Seq<Seq<char>>)>,
}

/// The model type that is supported.
pub open spec fn markov() -> Seq<char> {
    seq!['M', 'A', 'R', 'K', 'O', 'V']
}

/// Nothing read yet.
pub open spec fn initial_progress() -> UaiProgress {
    UaiProgress {
        state: UAIState::ModelType,
        num_variables: 0,
        domain_sizes: Seq::empty(),
        num_functions: 0,
        scopes: Seq::empty(),
        entries: Seq::empty(),
        network_created: false,
        functions: Seq::empty(),
    }
}

/// Why a function over `scope` cannot be added to a network of `num_variables` variables:
/// a variable after the first is out of range, the variables are not increasing, or the only
/// variable is out of range.
pub open spec fn scope_error(num_variables: nat, scope: Seq<usize>) -> Option<UaiError> {
    if exists|k: int| 1 <= k < scope.len() && #[trigger] scope[k] >= num_variables {
        Some(UaiError::VariableOutOfRange)
    } else if !strictly_increasing(scope) {
        Some(UaiError::UnsortedScope)
    } else if scope.len() == 1 && scope[0] >= num_variables {
        Some(UaiError::VariableOutOfRange)
    } else {
        None
    }
}

/// Reads one line of a UAI model. Lines that are empty once trimmed are skipped, and so
/// are the lines after the last function table.
pub open spec fn uai_step(p: UaiProgress, line: Seq<char>) -> Result<UaiProgress, UaiError> {
    let t = trim(line);
    if t.len() == 0 {
        Ok(p)
    } else {
        match p.state {
            UAIState::ModelType => if t == markov() {
                Ok(UaiProgress { state: UAIState::NumberOfVariables, ..p })
            } else {
                Err(UaiError::UnsupportedModelType)
            },
            UAIState::NumberOfVariables => match parse_usize_spec(t) {
                Some(n) => Ok(UaiProgress { state: UAIState::DomainSizes, num_variables: n, ..p }),
                None => Err(UaiError::InvalidNumber),
            },
            UAIState::DomainSizes => match parse_all(words(t)) {
                Some(sizes) => if sizes.len() == p.num_variables {
                    Ok(UaiProgress { state: UAIState::NumberOfFunctions, domain_sizes: sizes, ..p })
                } else {
                    Err(UaiError::DomainSizesMismatch)
                },
                None => Err(UaiError::InvalidNumber),
            },
            UAIState::NumberOfFunctions => match parse_usize_spec(t) {
                Some(m) => Ok(
                    UaiProgress {
                        state: UAIState::FunctionScopes(0),
                        num_functions: m,
                        scopes: Seq::empty(),
                        network_created: true,
                        ..p
                    },
                ),
                None => Err(UaiError::InvalidNumber),
            },
            UAIState::FunctionScopes(k) => match parse_all(words(t)) {
                Some(desc) => if desc.len() > 0 && desc[0] == desc.len() - 1 {
                    Ok(
                        UaiProgress {
                            state: if k + 1 < p.num_functions {
                                UAIState::FunctionScopes((k + 1) as usize)
                            } else {
                                UAIState::NumberOfTableValues(0)
                            },
                            scopes: p.scopes.push(desc.drop_first()),
                            ..p
                        },
                    )
                } else {
                    Err(UaiError::ScopeLengthMismatch)
                },
                None => Err(UaiError::InvalidNumber),
            },
            UAIState::NumberOfTableValues(k) => if k < p.scopes.len() {
                match parse_usize_spec(t) {
                    Some(total) => Ok(
                        UaiProgress {
                            state: UAIState::TableValues(k, 0, total),
                            entries: Seq::empty(),
                            ..p
                        },
                    ),
                    None => Err(UaiError::InvalidNumber),
                }
            } else {
                Err(UaiError::FunctionIndexOutOfBounds)
            },
            UAIState::TableValues(k, read, total) => if k < p.scopes.len() {
                let entries = p.entries + words(t);
                let count = read + words(t).len();
                if count > total {
                    Err(UaiError::TooManyEntries)
                } else if count < total {
                    Ok(UaiProgress { state: UAIState::TableValues(k, count as usize, total), entries, ..p })
                } else {
                    match scope_error(p.domain_sizes.len(), p.scopes[k as int]) {
                        Some(e) => Err(e),
                        None => Ok(
                            UaiProgress {
                                state: if k + 1 < p.scopes.len() {
                                    UAIState::NumberOfTableValues((k + 1) as usize)
                                } else {
                                    UAIState::EndOfFile
                                },
                                entries: Seq::empty(),
                                functions: p.functions.push((p.scopes[k as int], entries)),
                                ..p
                            },
                        ),
                    }
                }
            } else {
                Err(UaiError::FunctionIndexOutOfBounds)
            },
            UAIState::EndOfFile => Ok(p),
        }
    }
}

/// Reads the lines of a UAI model in order, stopping at the first error.
pub open spec fn uai_run(lines: Seq<Seq<char>>) -> Result<UaiProgress, UaiError>
    decreases lines.len(),
{
    if lines.len() == 0 {
        Ok(initial_progress())
    } else {
        match uai_run(lines.drop_last()) {
            Ok(p) => uai_step(p, lines.last()),
            Err(e) => Err(e),
        }
    }
}

/// The factors (scope and table entries) and the unary factor index of each of
/// `num_variables` variables, after adding `functions` in order to a network without factors:
/// a function over one variable of the network that already has a unary factor replaces it;
/// any other function is appended.
pub open spec fn added_factors(num_variables: nat, functions: Seq<(Seq<usize>, Seq<Seq<char>>)>) -> (
    Seq<(Seq<usize>, Seq<Seq<char>>)>,
    Seq<Option<usize>>,
)
    decreases functions.len(),
{
    if functions.len() == 0 {
        (Seq::empty(), Seq::new(num_variables, |v: int| None))
    } else {
        let (list, unary) = added_factors(num_variables, functions.drop_last());
        let f = functions.last();
        if f.0.len() == 1 && f.0[0] < num_variables {
            match unary[f.0[0] as int] {
                Some(i) => (list.update(i as int, f), unary),
                None => (list.push(f), unary.update(f.0[0] as int, Some(list.len() as usize))),
            }
        } else {
            (list.push(f), unary)
        }
    }
}

/// The scope and the table entries of a factor read from a UAI model.
pub open spec fn factor_text(f: FactorScope<Vec<String>>) -> (Seq<usize>, Seq<Seq<char>>) {
    (f.spec_variables(), f.spec_costs()@.map_values(|s: String| s@))
}

/// `cfn` is the network that `p` describes: the domain sizes once the network was created,
/// and the completed functions added in order.
pub open spec fn network_matches(cfn: CostFunctionNetwork<Vec<String>>, p: UaiProgress) -> bool {
    let domains = if p.network_created { p.domain_sizes } else { Seq::<usize>::empty() };
    let (list, unary) = added_factors(domains.len(), p.functions);
    &&& cfn.wf()
    &&& cfn.domain_sizes() == domains
    &&& cfn.factor_list().len() == list.len()
    &&& forall|i: int| 0 <= i < list.len() ==> #[trigger] factor_text(cfn.factor_list()[i]) == list[i]
        && cfn.factor_list()[i].spec_function_table_len() == list[i].1.len()
    &&& forall|v: int| 0 <= v < domains.len() ==> #[trigger] cfn.unary_factor_index(v) == unary[v]
}


/// What the reader keeps consistent about `p` while it reads: the network exists once the
/// number of functions is read, and no function is completed before; the domain sizes match
/// the number of variables when the network is created; `k` scopes are read in state
/// `FunctionScopes(k)`.
pub open spec fn progress_wf(p: UaiProgress) -> bool {
    match p.state {
        UAIState::ModelType | UAIState::NumberOfVariables | UAIState::DomainSizes => !p.network_created
            && p.functions.len() == 0,
        UAIState::NumberOfFunctions => !p.network_created && p.functions.len() == 0
            && p.domain_sizes.len() == p.num_variables,
        UAIState::FunctionScopes(k) => p.network_created && k == p.scopes.len() && (k == 0 || k
            < p.num_functions),
        _ => p.network_created,
    }
}

/// Whether `text` is the supported model type.
pub(crate) fn is_markov(text: &str) -> (b: bool)
    ensures
        b == (text@ == markov()),
{
    if text.unicode_len() != 6 {
        return false;
    }
    let b = text.get_char(0) == 'M' && text.get_char(1) == 'A' && text.get_char(2) == 'R'
        && text.get_char(3) == 'K' && text.get_char(4) == 'O' && text.get_char(5) == 'V';
    if b {
        assert(text@ =~= markov());
    } else {
        assert(text@ != markov()) by {
            if text@ == markov() {
                assert(text@[0] == 'M' && text@[1] == 'A' && text@[2] == 'R' && text@[3] == 'K'
                    && text@[4] == 'O' && text@[5] == 'V');
            }
        }
    }
    b
}

/// Adjacent variables in increasing order make the whole scope increasing.
proof fn lemma_increasing_from_adjacent(scope: Seq<usize>, n: int)
    requires
        0 <= n <= scope.len(),
        forall|i: int| 0 <= i && i + 1 < n ==> #[trigger] scope[i] < scope[i + 1],
    ensures
        forall|i: int, j: int| 0 <= i < j < n ==> scope[i] < scope[j],
    decreases n,
{
    if n > 0 {
        lemma_increasing_from_adjacent(scope, n - 1);
        assert forall|i: int, j: int| 0 <= i < j < n implies scope[i] < scope[j] by {
            if j == n - 1 && i < j - 1 {
                assert(scope[j - 1] < scope[j]);
            }
        }
    }
}

/// Decides `scope_error`.
fn find_scope_error(num_variables: usize, scope: &Vec<usize>) -> (e: Option<UaiError>)
    ensures
        e == scope_error(num_variables as nat, scope@),
{
    let n = scope.len();
    let mut k: usize = 1;
    while k < n
        invariant
            n == scope@.len(),
            1 <= k,
            forall|j: int| 1 <= j < k && j < n ==> #[trigger] scope@[j] < num_variables,
        decreases n - k,
    {
        if scope[k] >= num_variables {
            return Some(UaiError::VariableOutOfRange);
        }
        k = k + 1;
    }
    assert(!exists|j: int| 1 <= j < scope@.len() && #[trigger] scope@[j] >= num_variables);
    let mut i: usize = 0;
    while i + 1 < n
        invariant
            n == scope@.len(),
            i == 0 || i < n,
            forall|j: int| 1 <= j < n ==> #[trigger] scope@[j] < num_variables,
            forall|j: int| 0 <= j && j + 1 <= i && j + 1 < n ==> #[trigger] scope@[j] < scope@[j + 1],
        decreases n - i,
    {
        if scope[i] >= scope[i + 1] {
            assert(!strictly_increasing(scope@));
            return Some(UaiError::UnsortedScope);
        }
        i = i + 1;
    }
    proof {
        lemma_increasing_from_adjacent(scope@, n as int);
    }
    if n == 1 && scope[0] >= num_variables {
        return Some(UaiError::VariableOutOfRange);
    }
    None
}

/// Copies `values` from position `from` on.
pub(crate) fn copy_from(values: &Vec<usize>, from: usize) -> (copy: Vec<usize>)
    requires
        from <= values@.len(),
    ensures
        copy@ == values@.subrange(from as int, values@.len() as int),
{
    let mut copy: Vec<usize> = Vec::new();
    let mut i: usize = from;
    while i < values.len()
        invariant
            from <= i <= values@.len(),
            copy@ == values@.subrange(from as int, i as int),
        decreases values@.len() - i,
    {
        copy.push(values[i]);
        assert(copy@ =~= values@.subrange(from as int, i + 1));
        i = i + 1;
    }
    copy
}

/// The unary factor indices are given for each of the `num_variables` variables.
pub(crate) proof fn lemma_added_factors_len(num_variables: nat, functions: Seq<(Seq<usize>, Seq<Seq<char>>)>)
    ensures
        added_factors(num_variables, functions).1.len() == num_variables,
    decreases functions.len(),
{
    if functions.len() > 0 {
        lemma_added_factors_len(num_variables, functions.drop_last());
    }
}

/// Adding a factor to a network that matches some functions gives a network that matches
/// them followed by the factor's function.
proof fn lemma_network_add(
    before: CostFunctionNetwork<Vec<String>>,
    after: CostFunctionNetwork<Vec<String>>,
    domains: Seq<usize>,
    functions: Seq<(Seq<usize>, Seq<Seq<char>>)>,
    factor: FactorScope<Vec<String>>,
)
    requires
        before.wf(),
        before.domain_sizes() == domains,
        ({
            let (list, unary) = added_factors(domains.len(), functions);
            &&& before.factor_list().len() == list.len()
            &&& forall|i: int| 0 <= i < list.len() ==> #[trigger] factor_text(before.factor_list()[i]) == list[i]
                && before.factor_list()[i].spec_function_table_len() == list[i].1.len()
            &&& forall|v: int| 0 <= v < domains.len() ==> #[trigger] before.unary_factor_index(v) == unary[v]
        }),
        factor.spec_function_table_len() == factor.spec_costs()@.len(),
        factor.spec_variables().len() == 1 ==> factor.spec_variables()[0] < domains.len(),
        after.wf(),
        after.domain_sizes() == before.domain_sizes(),
        factor.spec_variables().len() == 1 && before.unary_factor_index(factor.spec_variables()[0] as int) is Some ==> {
            let i = before.unary_factor_index(factor.spec_variables()[0] as int).unwrap();
            &&& after.factor_list() == before.factor_list().update(i as int, factor)
            &&& forall|v: int| #[trigger] after.unary_factor_index(v) == before.unary_factor_index(v)
        },
        factor.spec_variables().len() == 1 && before.unary_factor_index(factor.spec_variables()[0] as int) is None ==> {
            let w = factor.spec_variables()[0] as int;
            &&& after.factor_list() == before.factor_list().push(factor)
            &&& after.unary_factor_index(w) == Some(before.factor_list().len() as usize)
            &&& forall|v: int|
                0 <= v < after.spec_num_variables() && v != w ==> #[trigger] after.unary_factor_index(v)
                    == before.unary_factor_index(v)
        },
        factor.spec_variables().len() != 1 ==> {
            &&& after.factor_list() == before.factor_list().push(factor)
            &&& forall|v: int|
                0 <= v < after.spec_num_variables() ==> #[trigger] after.unary_factor_index(v)
                    == before.unary_factor_index(v)
        },
    ensures
        ({
            let (list, unary) = added_factors(domains.len(), functions.push(factor_text(factor)));
            &&& after.factor_list().len() == list.len()
            &&& forall|i: int| 0 <= i < list.len() ==> #[trigger] factor_text(after.factor_list()[i]) == list[i]
                && after.factor_list()[i].spec_function_table_len() == list[i].1.len()
            &&& forall|v: int| 0 <= v < domains.len() ==> #[trigger] after.unary_factor_index(v) == unary[v]
        }),
{
    let f = factor_text(factor);
    let fs = functions.push(f);
    assert(fs.drop_last() =~= functions);
    let (list, unary) = added_factors(domains.len(), functions);
    let (list2, unary2) = added_factors(domains.len(), fs);
    assert(after.spec_num_variables() == domains.len());
    lemma_added_factors_len(domains.len(), functions);
    assert(f.0 == factor.spec_variables());
    if f.0.len() == 1 {
        let w = f.0[0] as int;
        assert(before.unary_factor_index(w) == unary[w]);
        before.lemma_unary_factor(w);
        match unary[w] {
            Some(i) => {
                assert(list2 == list.update(i as int, f));
                let i0 = before.unary_factor_index(factor.spec_variables()[0] as int).unwrap();
                assert(i0 == i);
                assert(after.factor_list() == before.factor_list().update(i as int, factor));
                assert forall|j: int| 0 <= j < list2.len() implies #[trigger] factor_text(after.factor_list()[j]) == list2[j]
                    && after.factor_list()[j].spec_function_table_len() == list2[j].1.len() by {
                    if j != i {
                        assert(after.factor_list()[j] == before.factor_list()[j]);
                    }
                }
                assert(unary2 == unary);
                assert forall|v: int| 0 <= v < domains.len() implies #[trigger] after.unary_factor_index(v) == unary2[v] by {
                    assert(before.unary_factor_index(v) == unary[v]);
                }
            },
            None => {
                assert(list2 == list.push(f));
                assert forall|j: int| 0 <= j < list2.len() implies #[trigger] factor_text(after.factor_list()[j]) == list2[j]
                    && after.factor_list()[j].spec_function_table_len() == list2[j].1.len() by {
                    if j < list.len() {
                        assert(after.factor_list()[j] == before.factor_list()[j]);
                    }
                }
                assert(unary2 == unary.update(w, Some(list.len() as usize)));
                assert(w == factor.spec_variables()[0] as int);
                assert forall|v: int| 0 <= v < domains.len() implies #[trigger] after.unary_factor_index(v) == unary2[v] by {
                    if v == w {
                        assert(after.unary_factor_index(w) == Some(before.factor_list().len() as usize));
                    } else {
                        assert(before.unary_factor_index(v) == unary[v]);
                    }
                }
            },
        }
    } else {
        assert(list2 == list.push(f));
        assert(unary2 == unary);
        assert forall|j: int| 0 <= j < list2.len() implies #[trigger] factor_text(after.factor_list()[j]) == list2[j]
            && after.factor_list()[j].spec_function_table_len() == list2[j].1.len() by {
            if j < list.len() {
                assert(after.factor_list()[j] == before.factor_list()[j]);
            }
        }
        assert forall|v: int| 0 <= v < domains.len() implies #[trigger] after.unary_factor_index(v) == unary2[v] by {
            assert(before.unary_factor_index(v) == unary[v]);
        }
    }
}

/// The state of reading a UAI model line by line.
struct UaiReader {
    state: UAIState,
    num_variables: usize,
    domain_sizes: Vec<usize>,
    num_functions: usize,
    function_scopes: Vec<Vec<usize>>,
    function_entries: Vec<String>,
    network_created: Ghost<bool>,
    functions: Ghost<Seq<(Seq<usize>, Seq<Seq<char>>)>>,
    cfn: CostFunctionNetwork<Vec<String>>,
}

impl UaiReader {
    spec fn progress(&self) -> UaiProgress {
        UaiProgress {
            state: self.state,
            num_variables: self.num_variables,
            domain_sizes: self.domain_sizes@,
            num_functions: self.num_functions,
            scopes: self.function_scopes@.map_values(|s: Vec<usize>| s@),
            entries: self.function_entries@.map_values(|s: String| s@),
            network_created: self.network_created@,
            functions: self.functions@,
        }
    }

    spec fn inv(&self) -> bool {
        &&& progress_wf(self.progress())
        &&& network_matches(self.cfn, self.progress())
    }

    fn new() -> (reader: Self)
        ensures
            reader.inv(),
            reader.progress() == initial_progress(),
    {
        let reader = UaiReader {
            state: UAIState::ModelType,
            num_variables: 0,
            domain_sizes: Vec::new(),
            num_functions: 0,
            function_scopes: Vec::new(),
            function_entries: Vec::new(),
            network_created: Ghost(false),
            functions: Ghost(Seq::empty()),
            cfn: CostFunctionNetwork::new(),
        };
        proof {
            assert(reader.progress().scopes =~= Seq::<Seq<usize>>::empty());
            assert(reader.progress().entries =~= Seq::<Seq<char>>::empty());
            let (list, unary) = added_factors(0, Seq::empty());
            assert(list =~= Seq::<(Seq<usize>, Seq<Seq<char>>)>::empty());
        }
        reader
    }

    /// Reads one line that holds something once trimmed, in a state before the function
    /// tables.
    #[verifier::spinoff_prover]
    fn step_header(&mut self, line: &str, trimmed: &str) -> (result: Result<(), UaiError>)
        requires
            old(self).inv(),
            trimmed@.len() > 0,
            trimmed@ == trim(line@),
            match old(self).state {
                UAIState::ModelType | UAIState::NumberOfVariables | UAIState::DomainSizes
                | UAIState::NumberOfFunctions | UAIState::FunctionScopes(_) => true,
                _ => false,
            },
        ensures
            match uai_step(old(self).progress(), line@) {
                Ok(p) => result is Ok && final(self).inv() && final(self).progress() == p,
                Err(e) => result == Err::<(), UaiError>(e),
            },
    {
        let ghost before = self.progress();
        match self.state {
            UAIState::ModelType => {
                if !is_markov(trimmed) {
                    return Err(UaiError::UnsupportedModelType);
                }
                self.state = UAIState::NumberOfVariables;
            },
            UAIState::NumberOfVariables => {
                match parse_usize(trimmed) {
                    Some(n) => {
                        self.num_variables = n;
                        self.state = UAIState::DomainSizes;
                    },
                    None => {
                        return Err(UaiError::InvalidNumber);
                    },
                }
            },
            UAIState::DomainSizes => {
                match string_to_vec(trimmed) {
                    Some(sizes) => {
                        if sizes.len() != self.num_variables {
                            return Err(UaiError::DomainSizesMismatch);
                        }
                        self.domain_sizes = sizes;
                        self.state = UAIState::NumberOfFunctions;
                    },
                    None => {
                        return Err(UaiError::InvalidNumber);
                    },
                }
            },
            UAIState::NumberOfFunctions => {
                match parse_usize(trimmed) {
                    Some(m) => {
                        let capacity_non_unary = if m > self.num_variables {
                            m - self.num_variables
                        } else {
                            0
                        };
                        self.cfn = CostFunctionNetwork::from_domain_sizes(
                            &self.domain_sizes,
                            true,
                            capacity_non_unary,
                        );
                        self.num_functions = m;
                        self.function_scopes = Vec::new();
                        self.network_created = Ghost(true);
                        self.state = UAIState::FunctionScopes(0);
                        proof {
                            let p = self.progress();
                            assert(p.scopes =~= Seq::<Seq<usize>>::empty());
                            let (list, unary) = added_factors(p.domain_sizes.len(), p.functions);
                            assert(p.functions =~= Seq::<(Seq<usize>, Seq<Seq<char>>)>::empty());
                            assert(list =~= Seq::<(Seq<usize>, Seq<Seq<char>>)>::empty());
                        }
                    },
                    None => {
                        return Err(UaiError::InvalidNumber);
                    },
                }
            },
            UAIState::FunctionScopes(k) => {
                match string_to_vec(trimmed) {
                    Some(desc) => {
                        if desc.len() == 0 || desc[0] != desc.len() - 1 {
                            return Err(UaiError::ScopeLengthMismatch);
                        }
                        let scope = copy_from(&desc, 1);
                        assert(scope@ =~= desc@.drop_first());
                        let ghost scopes_before = self.function_scopes@;
                        self.function_scopes.push(scope);
                        assert(self.function_scopes@.map_values(|s: Vec<usize>| s@) =~= scopes_before.map_values(
                            |s: Vec<usize>| s@,
                        ).push(desc@.drop_first()));
                        self.state = if k + 1 < self.num_functions {
                            UAIState::FunctionScopes(k + 1)
                        } else {
                            UAIState::NumberOfTableValues(0)
                        };
                    },
                    None => {
                        return Err(UaiError::InvalidNumber);
                    },
                }
            },
            _ => {},
        }
        Ok(())
    }

    /// Reads one line that holds something once trimmed, in a state of the function tables.
    #[verifier::spinoff_prover]
    fn step_tables(&mut self, line: &str, trimmed: &str) -> (result: Result<(), UaiError>)
        requires
            old(self).inv(),
            trimmed@.len() > 0,
            trimmed@ == trim(line@),
            match old(self).state {
                UAIState::NumberOfTableValues(_) | UAIState::TableValues(_, _, _)
                | UAIState::EndOfFile => true,
                _ => false,
            },
        ensures
            match uai_step(old(self).progress(), line@) {
                Ok(p) => result is Ok && final(self).inv() && final(self).progress() == p,
                Err(e) => result == Err::<(), UaiError>(e),
            },
    {
        let ghost before = self.progress();
        match self.state {
            UAIState::NumberOfTableValues(k) => {
                if k >= self.function_scopes.len() {
                    return Err(UaiError::FunctionIndexOutOfBounds);
                }
                match parse_usize(trimmed) {
                    Some(total) => {
                        self.function_entries = Vec::new();
                        self.state = UAIState::TableValues(k, 0, total);
                        assert(self.progress().entries =~= Seq::<Seq<char>>::empty());
                    },
                    None => {
                        return Err(UaiError::InvalidNumber);
                    },
                }
            },
            UAIState::TableValues(k, read, total) => {
                if k >= self.function_scopes.len() {
                    return Err(UaiError::FunctionIndexOutOfBounds);
                }
                let mut new_entries = split_whitespace(trimmed);
                let count: u128 = read as u128 + new_entries.len() as u128;
                let ghost entries_before = self.function_entries@;
                let ghost new_view = new_entries@;
                self.function_entries.append(&mut new_entries);
                assert(self.function_entries@.map_values(|s: String| s@) =~= entries_before.map_values(
                    |s: String| s@,
                ) + new_view.map_values(|s: String| s@));
                if count > total as u128 {
                    return Err(UaiError::TooManyEntries);
                }
                if count < total as u128 {
                    self.state = UAIState::TableValues(k, count as usize, total);
                    return Ok(());
                }
                match find_scope_error(self.domain_sizes.len(), &self.function_scopes[k]) {
                    Some(e) => {
                        return Err(e);
                    },
                    None => {},
                }
                let mut entries: Vec<String> = Vec::new();
                std::mem::swap(&mut entries, &mut self.function_entries);
                let scope = self.function_scopes[k].clone();
                assert(scope@ =~= self.function_scopes@[k as int]@);
                let ghost entries_view = entries@.map_values(|s: String| s@);
                let ghost cfn_before = self.cfn;
                let ghost function = (scope@, entries_view);
                let factor = FactorScope::new(scope, entries.len(), entries);
                self.cfn.add_factor(factor);
                self.functions = Ghost(self.functions@.push(function));
                self.state = if k + 1 < self.function_scopes.len() {
                    UAIState::NumberOfTableValues(k + 1)
                } else {
                    UAIState::EndOfFile
                };
                proof {
                    assert(self.progress().entries =~= Seq::<Seq<char>>::empty());
                    lemma_network_add(cfn_before, self.cfn, before.domain_sizes, before.functions, factor);
                }
            },
            _ => {},
        }
        Ok(())
    }

    /// Reads one line.
    fn step(&mut self, line: &str) -> (result: Result<(), UaiError>)
        requires
            old(self).inv(),
        ensures
            match uai_step(old(self).progress(), line@) {
                Ok(p) => result is Ok && final(self).inv() && final(self).progress() == p,
                Err(e) => result == Err::<(), UaiError>(e),
            },
    {
        let trimmed = trim_text(line);
        if trimmed.unicode_len() == 0 {
            return Ok(());
        }
        match self.state {
            UAIState::NumberOfTableValues(_) | UAIState::TableValues(_, _, _) | UAIState::EndOfFile => {
                self.step_tables(line, trimmed)
            },
            _ => self.step_header(line, trimmed),
        }
    }
}

/// Reads a cost function network from the lines of a well-formed model in UAI format, as
/// `try_read_uai` does; the model must be one that `uai_run` reads without error (a malformed
/// model is refused by `try_read_uai` with its error).
pub fn read_uai(lines: &Vec<String>) -> (cfn: CostFunctionNetwork<Vec<String>>)
    requires
        uai_run(lines@.map_values(|l: String| l@)) is Ok,
    ensures
        network_matches(cfn, uai_run(lines@.map_values(|l: String| l@))->Ok_0),
{
    match try_read_uai(lines) {
        Ok(cfn) => cfn,
        Err(_) => {
            proof {
                assert(false);
            }
            CostFunctionNetwork::new()
        },
    }
}

/// Reads a cost function network from the lines of a model in UAI format: the model type
/// `MARKOV`, the number of variables, their domain sizes, the number of functions, the scope
/// of each function, then for each function the number of its table entries and the entries,
/// which may be spread over several lines. Lines that are empty once trimmed are skipped, and
/// so are the lines after the last table. Each completed function is added as a factor over
/// its scope, whose costs are the words of its table entries. The result is what `uai_run`
/// describes: the first error met, or the network of what was read.
pub fn try_read_uai(lines: &Vec<String>) -> (result: Result<CostFunctionNetwork<Vec<String>>, UaiError>)
    ensures
        match uai_run(lines@.map_values(|l: String| l@)) {
            Ok(p) => match result {
                Ok(cfn) => network_matches(cfn, p),
                Err(_) => false,
            },
            Err(e) => result matches Err(e2) && e2 == e,
        },
{
    let ghost texts = lines@.map_values(|l: String| l@);
    let mut reader = UaiReader::new();
    let mut i: usize = 0;
    while i < lines.len()
        invariant
            texts == lines@.map_values(|l: String| l@),
            i <= lines@.len(),
            reader.inv(),
            uai_run(texts.take(i as int)) == Ok::<UaiProgress, UaiError>(reader.progress()),
        decreases lines@.len() - i,
    {
        assert(texts.take(i + 1).drop_last() =~= texts.take(i as int));
        assert(texts.take(i + 1).last() == lines@[i as int]@);
        match reader.step(lines[i].as_str()) {
            Ok(()) => {},
            Err(e) => {
                proof {
                    lemma_uai_run_stops(texts, i + 1);
                }
                return Err(e);
            },
        }
        i = i + 1;
    }
    assert(texts.take(i as int) =~= texts);
    Ok(reader.cfn)
}

/// Once reading fails, it fails with the same error whatever follows.
proof fn lemma_uai_run_stops(lines: Seq<Seq<char>>, k: int)
    requires
        0 <= k <= lines.len(),
        uai_run(lines.take(k)) is Err,
    ensures
        uai_run(lines) == uai_run(lines.take(k)),
    decreases lines.len() - k,
{
    if k == lines.len() {
        assert(lines.take(k) =~= lines);
    } else {
        let t = lines.drop_last();
        assert(t.take(k) =~= lines.take(k));
        lemma_uai_run_stops(t, k);
    }
}


/// A scope in UAI format: the number of variables, then the variables, on one line.
pub open spec fn scope_line(vars: Seq<usize>) -> Seq<char> {
    decimal(vars.len()) + seq![' '] + join_with_spaces(decimals(vars)) + seq!['\n']
}

/// The scope lines of `scopes`, in order.
pub open spec fn scope_lines(scopes: Seq<Seq<usize>>) -> Seq<char>
    decreases scopes.len(),
{
    if scopes.len() == 0 {
        Seq::empty()
    } else {
        scope_lines(scopes.drop_last()) + scope_line(scopes.last())
    }
}

/// The part of a model in UAI format before the function tables: the model type, the
/// number of variables, their domain sizes, the number of functions and their scopes.
pub open spec fn uai_preamble_text(domain_sizes: Seq<usize>, scopes: Seq<Seq<usize>>) -> Seq<char> {
    markov() + seq!['\n'] + decimal(domain_sizes.len()) + seq!['\n'] + join_with_spaces(
        decimals(domain_sizes),
    ) + seq!['\n'] + decimal(scopes.len()) + seq!['\n'] + scope_lines(scopes)
}

impl<T> CostFunctionNetwork<T> {
    /// The scopes of the factors, in order.
    pub open spec fn factor_scopes(&self) -> Seq<Seq<usize>> {
        self.factor_list().map_values(|f: FactorScope<T>| f.spec_variables())
    }

    /// Writes this network in UAI format up to the function tables: the model type, the
    /// number of variables, their domain sizes, the number of factors and the scope of each.
    pub fn uai_preamble(&self) -> (text: String)
        ensures
            text@ == uai_preamble_text(self.domain_sizes(), self.factor_scopes()),
    {
        let n = self.num_variables();
        let mut domain_sizes: Vec<usize> = Vec::new();
        for v in 0..n
            invariant
                n == self.spec_num_variables(),
                domain_sizes@ == self.domain_sizes().take(v as int),
        {
            domain_sizes.push(self.domain_size(v));
            assert(domain_sizes@ =~= self.domain_sizes().take(v + 1));
        }
        assert(domain_sizes@ =~= self.domain_sizes());
        let factors = self.factors_iter();
        let mut text = String::from_str("MARKOV\n");
        proof {
            reveal_strlit("MARKOV\n");
            reveal_strlit("\n");
            reveal_strlit(" ");
        }
        text.append(usize_to_string(n).as_str());
        text.append("\n");
        text.append(vec_to_string(&domain_sizes).as_str());
        text.append("\n");
        text.append(usize_to_string(factors.len()).as_str());
        text.append("\n");
        let ghost scopes = self.factor_scopes();
        let ghost head = text@;
        assert(scope_lines(scopes.take(0)) =~= Seq::<char>::empty());
        for i in 0..factors.len()
            invariant
                factors@ == self.factor_list(),
                scopes == self.factor_scopes(),
                text@ == head + scope_lines(scopes.take(i as int)),
        {
            let vars = factors[i].variables();
            proof {
                reveal_strlit("\n");
                reveal_strlit(" ");
            }
            text.append(usize_to_string(vars.len()).as_str());
            text.append(" ");
            text.append(vec_to_string(vars).as_str());
            text.append("\n");
            assert(scopes.take(i + 1).drop_last() =~= scopes.take(i as int));
            assert(scopes.take(i + 1).last() == vars@);
            assert(text@ =~= head + scope_lines(scopes.take(i + 1)));
        }
        assert(scopes.take(factors@.len() as int) =~= scopes);
        assert(text@ =~= uai_preamble_text(self.domain_sizes(), scopes));
        text
    }
}

/// The decimal representation of `n` is a nonempty run of digits, not starting with `+`,
/// that writes `n`.
pub proof fn lemma_decimal_digits(n: nat)
    ensures
        decimal(n).len() > 0,
        forall|i: int| 0 <= i < decimal(n).len() ==> #[trigger] is_digit(decimal(n)[i]),
        digits_value(decimal(n)) == n,
    decreases n,
{
    lemma_digit_char(n % 10);
    if n < 10 {
        assert(decimal(n) == seq![digit_char(n)]);
        assert(decimal(n).drop_last() =~= Seq::<char>::empty());
        assert(n % 10 == n);
        assert(digits_value(Seq::<char>::empty()) == 0);
        assert(digits_value(decimal(n)) == ((digit_char(n) as u32) - ('0' as u32)) as nat);
    } else {
        lemma_decimal_digits(n / 10);
        let d = decimal(n / 10);
        assert(decimal(n).drop_last() =~= d);
        assert(decimal(n).last() == digit_char(n % 10));
        assert(digits_value(decimal(n)) == digits_value(d) * 10 + ((digit_char(n % 10) as u32) - ('0' as u32)) as nat);
        assert((n / 10) * 10 + n % 10 == n) by (nonlinear_arith);
        assert forall|i: int| 0 <= i < decimal(n).len() implies #[trigger] is_digit(decimal(n)[i]) by {
            if i < d.len() {
                assert(decimal(n)[i] == d[i]);
            }
        }
    }
}

proof fn lemma_digit_char(d: nat)
    requires
        d < 10,
    ensures
        digit_char(d) as u32 == '0' as u32 + d,
        is_digit(digit_char(d)),
{
    assert('0' as u32 == 48);
}

/// Reading back the decimal representation of a `usize` gives the value.
pub proof fn lemma_parse_decimal(value: usize)
    ensures
        parse_usize_spec(decimal(value as nat)) == Some(value),
{
    lemma_decimal_digits(value as nat);
    let d = decimal(value as nat);
    assert(is_digit(d[0]));
    assert(unsigned_part(d) == d);
}

proof fn lemma_decimal_is_word(n: nat)
    ensures
        is_word(decimal(n)),
{
    lemma_decimal_digits(n);
    assert forall|i: int| 0 <= i < decimal(n).len() implies !is_whitespace(#[trigger] decimal(n)[i]) by {
        assert(is_digit(decimal(n)[i]));
    }
}

proof fn lemma_words_of_join(parts: Seq<Seq<char>>)
    requires
        forall|i: int| 0 <= i < parts.len() ==> #[trigger] is_word(parts[i]),
    ensures
        words(join_with_spaces(parts)) == parts,
    decreases parts.len(),
{
    if parts.len() == 1 {
        lemma_words_append_word(Seq::empty(), parts[0]);
        assert(Seq::<char>::empty() + parts[0] =~= parts[0]);
        assert(Seq::<Seq<char>>::empty().push(parts[0]) =~= parts);
    } else if parts.len() > 1 {
        let rest = parts.drop_last();
        assert forall|i: int| 0 <= i < rest.len() implies #[trigger] is_word(rest[i]) by {
            assert(rest[i] == parts[i]);
        }
        lemma_words_of_join(rest);
        let b = join_with_spaces(rest) + seq![' '];
        assert(b =~= join_with_spaces(rest).push(' '));
        assert(is_whitespace(' '));
        lemma_words_append_space(join_with_spaces(rest), ' ');
        assert(is_word(parts[parts.len() - 1]));
        lemma_words_append_word(b, parts.last());
        assert(rest.push(parts.last()) =~= parts);
    }
}

proof fn lemma_parse_all_decimals(values: Seq<usize>)
    ensures
        parse_all(decimals(values)) == Some(values),
    decreases values.len(),
{
    if values.len() > 0 {
        lemma_parse_all_decimals(values.drop_last());
        assert(decimals(values).drop_last() =~= decimals(values.drop_last()));
        lemma_parse_decimal(values.last());
        assert(values.drop_last().push(values.last()) =~= values);
    }
}

/// `string_to_vec` reads back what `vec_to_string` writes: for every `Vec<usize>`, the text
/// that `vec_to_string` returns is read by `string_to_vec` as the same values. (The words of
/// the text are the decimal representations of the values, and they parse to the values.)
pub proof fn lemma_vec_text_round_trip(values: Seq<usize>)
    ensures
        text_values(vec_text(values)) == Some(values),
{
    let parts = decimals(values);
    assert forall|i: int| 0 <= i < parts.len() implies #[trigger] is_word(parts[i]) by {
        lemma_decimal_is_word(values[i] as nat);
    }
    lemma_words_of_join(parts);
    lemma_parse_all_decimals(values);
}

} // verus!
