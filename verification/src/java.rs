//! Calls of external Java functions: what a call asks for, and what its answer means.
//!
//! The transport is not part of this library. A call is prepared here from a class
//! name, a method signature and arguments; whoever has a transport sends it, and
//! hands the parts of the answer back.

use crate::digits;
use vstd::prelude::*;

verus! {

/// A prepared call of a static Java method.
pub struct JavaRequest<V> {
    /// Name of the Java class, where called method is defined.
    pub class_name: String,
    /// Name of the static method to be called.
    pub method_name: String,
    /// List of parameter types of the called method.
    pub parameter_types: Vec<String>,
    /// Arguments to be passed to called method.
    pub argument_values: Vec<V>,
}

/// What comes of an external function: a null that carries a reason, or a call.
pub enum JavaCall<V> {
    Null(String),
    Invoke(JavaRequest<V>),
}

/// Whether a character is white space, by the Unicode property of that name.
pub open spec fn is_space(c: char) -> bool {
    ||| '\u{9}' <= c && c <= '\u{d}'
    ||| c == '\u{20}'
    ||| c == '\u{85}'
    ||| c == '\u{a0}'
    ||| c == '\u{1680}'
    ||| '\u{2000}' <= c && c <= '\u{200a}'
    ||| c == '\u{2028}'
    ||| c == '\u{2029}'
    ||| c == '\u{202f}'
    ||| c == '\u{205f}'
    ||| c == '\u{3000}'
}

/// A text without the white space at its start.
pub open spec fn trimmed_start(s: Seq<char>) -> Seq<char>
    decreases s.len(),
{
    if s.len() > 0 && is_space(s[0]) {
        trimmed_start(s.skip(1))
    } else {
        s
    }
}

/// A text without the white space at its end.
pub open spec fn trimmed_end(s: Seq<char>) -> Seq<char>
    decreases s.len(),
{
    if s.len() > 0 && is_space(s.last()) {
        trimmed_end(s.drop_last())
    } else {
        s
    }
}

/// A text without the white space around it.
pub open spec fn trimmed(s: Seq<char>) -> Seq<char> {
    trimmed_end(trimmed_start(s))
}

/// A text without the occurrences of a character at its end.
pub open spec fn without_trailing(s: Seq<char>, c: char) -> Seq<char>
    decreases s.len(),
{
    if s.len() > 0 && s.last() == c {
        without_trailing(s.drop_last(), c)
    } else {
        s
    }
}

/// The pieces of a text between the occurrences of a character: one more than there
/// are occurrences.
pub open spec fn pieces(s: Seq<char>, separator: char) -> Seq<Seq<char>>
    decreases s.len(),
{
    if s.len() == 0 {
        seq![Seq::empty()]
    } else if s.last() == separator {
        pieces(s.drop_last(), separator).push(Seq::empty())
    } else {
        let rest = pieces(s.drop_last(), separator);
        rest.drop_last().push(rest.last().push(s.last()))
    }
}

/// The pieces with the white space around them removed, without those that are then
/// empty.
pub open spec fn kept_names(names: Seq<Seq<char>>) -> Seq<Seq<char>>
    decreases names.len(),
{
    if names.len() == 0 {
        seq![]
    } else {
        let rest = kept_names(names.drop_last());
        let name = trimmed(names.last());
        if name.len() == 0 {
            rest
        } else {
            rest.push(name)
        }
    }
}

/// The name in front of the first bracket of a method signature.
pub open spec fn method_name(signature: Seq<char>) -> Seq<char> {
    pieces(trimmed(signature), '(')[0]
}

/// Whether a method signature has a parameter list.
pub open spec fn has_parameters(signature: Seq<char>) -> bool {
    pieces(trimmed(signature), '(').len() > 1
}

/// The parameter types of a method signature, between its first bracket and a second
/// one or the end.
pub open spec fn parameter_types(signature: Seq<char>) -> Seq<Seq<char>> {
    let list = trimmed(pieces(trimmed(signature), '(')[1]);
    kept_names(pieces(without_trailing(list, ')'), ','))
}

/// The reason for a call with too few or too many arguments.
pub open spec fn count_mismatch(types: nat, arguments: nat) -> Seq<char> {
    "the number of parameter types ("@ + digits::decimal_text(types)
        + ") differs from the number of arguments ("@ + digits::decimal_text(arguments) + ")"@
}

/// Whether the argument at a place is the first that could not be passed.
pub open spec fn first_refused<V>(arguments: Seq<Result<V, String>>, i: int) -> bool {
    &&& 0 <= i < arguments.len()
    &&& arguments[i] is Err
    &&& forall|j: int| 0 <= j < i ==> arguments[j] is Ok
}

/// What a vector of strings holds.
pub open spec fn texts(v: Seq<String>) -> Seq<Seq<char>> {
    v.map_values(|s: String| s@)
}

/// Whether a character is white space.
fn is_white(c: char) -> (r: bool)
    ensures
        r == is_space(c),
{
    ('\u{9}' <= c && c <= '\u{d}') || c == '\u{20}' || c == '\u{85}' || c == '\u{a0}' || c
        == '\u{1680}' || ('\u{2000}' <= c && c <= '\u{200a}') || c == '\u{2028}' || c == '\u{2029}'
        || c == '\u{202f}' || c == '\u{205f}' || c == '\u{3000}'
}

/// A stretch of characters.
fn stretch(v: &Vec<char>, from: usize, to: usize) -> (r: Vec<char>)
    requires
        from <= to <= v@.len(),
    ensures
        r@ == v@.subrange(from as int, to as int),
{
    let mut r: Vec<char> = Vec::new();
    let mut i: usize = from;
    while i < to
        invariant
            from <= i <= to <= v@.len(),
            r@ == v@.subrange(from as int, i as int),
        decreases to - i,
    {
        r.push(v[i]);
        i = i + 1;
        assert(r@ =~= v@.subrange(from as int, i as int));
    }
    r
}

/// Remove the white space around a text.
fn trim(v: &Vec<char>) -> (r: Vec<char>)
    ensures
        r@ == trimmed(v@),
{
    let mut from: usize = 0;
    assert(v@.skip(0) =~= v@);
    while from < v.len() && is_white(v[from])
        invariant
            from <= v@.len(),
            trimmed_start(v@) == trimmed_start(v@.skip(from as int)),
        decreases v@.len() - from,
    {
        assert(v@.skip(from as int).skip(1) =~= v@.skip(from as int + 1));
        from = from + 1;
    }
    let ghost start = v@.skip(from as int);
    assert(trimmed_start(v@) == start);
    let mut to: usize = v.len();
    assert(v@.subrange(from as int, to as int) =~= start);
    while to > from && is_white(v[to - 1])
        invariant
            from <= to <= v@.len(),
            trimmed_end(start) == trimmed_end(v@.subrange(from as int, to as int)),
        decreases to,
    {
        assert(v@.subrange(from as int, to as int).drop_last() =~= v@.subrange(
            from as int,
            to as int - 1,
        ));
        to = to - 1;
    }
    stretch(v, from, to)
}

/// Remove the occurrences of a character at the end of a text.
fn strip_trailing(v: &Vec<char>, c: char) -> (r: Vec<char>)
    ensures
        r@ == without_trailing(v@, c),
{
    let mut to: usize = v.len();
    assert(v@.subrange(0, to as int) =~= v@);
    while to > 0 && v[to - 1] == c
        invariant
            to <= v@.len(),
            without_trailing(v@, c) == without_trailing(v@.subrange(0, to as int), c),
        decreases to,
    {
        assert(v@.subrange(0, to as int).drop_last() =~= v@.subrange(0, to as int - 1));
        to = to - 1;
    }
    stretch(v, 0, to)
}

/// What a vector of character vectors holds.
pub open spec fn views(v: Seq<Vec<char>>) -> Seq<Seq<char>> {
    v.map_values(|c: Vec<char>| c@)
}

/// Cut a text at each occurrence of a character.
fn split(v: &Vec<char>, separator: char) -> (r: Vec<Vec<char>>)
    ensures
        views(r@) == pieces(v@, separator),
        r@.len() > 0,
{
    let mut done: Vec<Vec<char>> = Vec::new();
    let mut current: Vec<char> = Vec::new();
    let mut i: usize = 0;
    assert(v@.take(0) =~= Seq::<char>::empty());
    assert(views(done@).push(current@) =~= pieces(v@.take(0), separator));
    while i < v.len()
        invariant
            i <= v@.len(),
            views(done@).push(current@) == pieces(v@.take(i as int), separator),
        decreases v@.len() - i,
    {
        let ghost before = v@.take(i as int);
        let ghost after = v@.take(i as int + 1);
        let ghost parts = views(done@);
        let ghost last = current@;
        assert(after.drop_last() =~= before);
        assert(after.last() == v@[i as int]);
        assert(parts.push(last).drop_last() =~= parts);
        assert(parts.push(last).last() == last);
        if v[i] == separator {
            done.push(current);
            current = Vec::new();
            assert(current@ =~= Seq::<char>::empty());
            assert(views(done@) =~= parts.push(last));
        } else {
            current.push(v[i]);
        }
        i = i + 1;
    }
    assert(v@.take(v@.len() as int) =~= v@);
    let ghost parts = views(done@);
    let ghost last = current@;
    done.push(current);
    assert(views(done@) =~= parts.push(last));
    done
}

/// The names in a list of pieces: trimmed, and not empty.
fn keep_names(names: &Vec<Vec<char>>) -> (r: Vec<String>)
    ensures
        texts(r@) == kept_names(views(names@)),
{
    let mut r: Vec<String> = Vec::new();
    let mut i: usize = 0;
    assert(views(names@).take(0) =~= Seq::<Seq<char>>::empty());
    assert(texts(r@) =~= kept_names(views(names@).take(0)));
    while i < names.len()
        invariant
            i <= names@.len(),
            texts(r@) == kept_names(views(names@).take(i as int)),
        decreases names@.len() - i,
    {
        let ghost longer = views(names@).take(i as int + 1);
        let ghost kept = texts(r@);
        assert(longer.drop_last() =~= views(names@).take(i as int));
        assert(longer.last() == names@[i as int]@);
        let name = trim(&names[i]);
        if name.len() > 0 {
            let text = digits::string_of(&name);
            let ghost added = text@;
            r.push(text);
            assert(texts(r@) =~= kept.push(added));
        }
        i = i + 1;
    }
    assert(views(names@).take(names@.len() as int) =~= views(names@));
    r
}

/// The reason for a call with too few or too many arguments.
fn mismatch_reason(types: usize, arguments: usize) -> (r: String)
    ensures
        r@ == count_mismatch(types as nat, arguments as nat),
{
    let mut r: String = "the number of parameter types (".to_owned();
    r.append(digits::integer_string(types as i128).as_str());
    r.append(") differs from the number of arguments (");
    r.append(digits::integer_string(arguments as i128).as_str());
    r.append(")");
    r
}

/// Prepare the call of an external Java function.
///
/// The arguments are those that can be passed on, or the reason for which one cannot.
/// A signature without a parameter list, a number of arguments that differs from
/// that of the parameter types, and an argument that cannot be passed each give a
/// null with the reason, in this order.
pub fn evaluate_external_java_function<V>(
    class_name: &str,
    method_signature: &str,
    arguments: Vec<Result<V, String>>,
) -> (r: JavaCall<V>)
    ensures
        !has_parameters(method_signature@) ==> (r matches JavaCall::Null(reason) && reason@
            == "no parameter types in method signature"@),
        has_parameters(method_signature@) && parameter_types(method_signature@).len()
            != arguments@.len() ==> (r matches JavaCall::Null(reason) && reason@ == count_mismatch(
            parameter_types(method_signature@).len(),
            arguments@.len(),
        )),
        has_parameters(method_signature@) && parameter_types(method_signature@).len()
            == arguments@.len() ==> match r {
            JavaCall::Null(reason) => exists|i: int| #[trigger]
                first_refused(arguments@, i) && reason@ == arguments@[i]->Err_0@,
            JavaCall::Invoke(request) => {
                &&& request.class_name@ == class_name@
                &&& request.method_name@ == method_name(method_signature@)
                &&& texts(request.parameter_types@) == parameter_types(method_signature@)
                &&& request.argument_values@.len() == arguments@.len()
                &&& forall|i: int|
                    0 <= i < arguments@.len() ==> #[trigger] arguments@[i] == Ok::<V, String>(
                        request.argument_values@[i],
                    )
            },
        },
{
    let signature = digits::chars_of(method_signature);
    let parts = split(&trim(&signature), '(');
    let ghost cut = pieces(trimmed(method_signature@), '(');
    assert(views(parts@).len() == parts@.len());
    assert(views(parts@)[0] == parts@[0]@);
    if parts.len() < 2 {
        return JavaCall::Null("no parameter types in method signature".to_owned());
    }
    assert(views(parts@)[1] == parts@[1]@);
    let list = strip_trailing(&trim(&parts[1]), ')');
    let types = keep_names(&split(&list, ','));
    assert(texts(types@).len() == types@.len());
    if types.len() != arguments.len() {
        return JavaCall::Null(mismatch_reason(types.len(), arguments.len()));
    }
    let ghost given = arguments@;
    let mut values: Vec<V> = Vec::new();
    for argument in it: arguments
        invariant
            it.seq() == given,
            values@.len() == it.index(),
            forall|i: int|
                0 <= i < it.index() ==> #[trigger] given[i] == Ok::<V, String>(values@[i]),
            has_parameters(method_signature@),
            parameter_types(method_signature@).len() == given.len(),
    {
        match argument {
            Ok(value) => values.push(value),
            Err(reason) => {
                assert(first_refused(given, it.index() as int));
                return JavaCall::Null(reason);
            },
        }
    }
    JavaCall::Invoke(
        JavaRequest {
            class_name: class_name.to_owned(),
            method_name: digits::string_of(&parts[0]),
            parameter_types: types,
            argument_values: values,
        },
    )
}

/// What the answer of the Java side stands for: an error is a null with that reason,
/// before any data; data is its value, or a null with the reason for which it has
/// none; an answer with neither is a null too.
pub fn interpret_response<V>(error: Option<String>, data: Option<Result<V, String>>) -> (r: Result<
    V,
    String,
>)
    ensures
        match (error, data) {
            (Some(reason), _) => r == Err::<V, String>(reason),
            (None, Some(value)) => r == value,
            (None, None) => r matches Err(reason) && reason@ == "no data in response"@,
        },
{
    match error {
        Some(reason) => Err(reason),
        None => match data {
            Some(value) => value,
            None => Err("no data in response".to_owned()),
        },
    }
}

/// The reason for a call that is not sent because there is no transport.
pub open spec fn not_invoked_text(class_name: Seq<char>, method_name: Seq<char>) -> Seq<char> {
    "external Java function '"@ + class_name + "."@ + method_name
        + "' was not invoked: this build of dsntk-feel-evaluator was compiled without the 'java-bridge' feature, so it contains no HTTP client"@
}

/// Refuse a call: there is no transport.
pub fn not_invoked<V>(request: &JavaRequest<V>) -> (reason: String)
    ensures
        reason@ == not_invoked_text(request.class_name@, request.method_name@),
{
    let mut reason: String = "external Java function '".to_owned();
    reason.append(request.class_name.as_str());
    reason.append(".");
    reason.append(request.method_name.as_str());
    reason.append(
        "' was not invoked: this build of dsntk-feel-evaluator was compiled without the 'java-bridge' feature, so it contains no HTTP client",
    );
    reason
}

/// A text without white space at its start keeps its first character when it loses
/// white space at its end.
proof fn lemma_trimmed_end(s: Seq<char>)
    ensures
        trimmed_end(s).len() <= s.len(),
        trimmed_end(s) == s.take(trimmed_end(s).len() as int),
        trimmed_end(trimmed_end(s)) == trimmed_end(s),
    decreases s.len(),
{
    if s.len() > 0 && is_space(s.last()) {
        lemma_trimmed_end(s.drop_last());
        let t = trimmed_end(s);
        assert(s.drop_last().take(t.len() as int) =~= s.take(t.len() as int));
    } else {
        assert(s.take(s.len() as int) =~= s);
    }
}

/// A text without white space at its start does not start with any.
proof fn lemma_trimmed_start(s: Seq<char>)
    ensures
        trimmed_start(s).len() > 0 ==> !is_space(trimmed_start(s)[0]),
    decreases s.len(),
{
    if s.len() > 0 && is_space(s[0]) {
        lemma_trimmed_start(s.skip(1));
    }
}

/// Trimming twice does no more than trimming once.
pub proof fn law_trimming_is_idempotent(s: Seq<char>)
    ensures
        trimmed(trimmed(s)) == trimmed(s),
{
    let t = trimmed_start(s);
    lemma_trimmed_start(s);
    lemma_trimmed_end(t);
}

/// Every parameter type is a name: not empty, and without white space around it.
pub proof fn law_parameter_types_are_names(signature: Seq<char>, i: int)
    requires
        has_parameters(signature),
        0 <= i < parameter_types(signature).len(),
    ensures
        parameter_types(signature)[i].len() > 0,
        trimmed(parameter_types(signature)[i]) == parameter_types(signature)[i],
{
    let list = trimmed(pieces(trimmed(signature), '(')[1]);
    lemma_kept_names(pieces(without_trailing(list, ')'), ','), i);
}

/// A kept name is not empty and has no white space around it.
proof fn lemma_kept_names(names: Seq<Seq<char>>, i: int)
    requires
        0 <= i < kept_names(names).len(),
    ensures
        kept_names(names)[i].len() > 0,
        trimmed(kept_names(names)[i]) == kept_names(names)[i],
    decreases names.len(),
{
    let rest = kept_names(names.drop_last());
    law_trimming_is_idempotent(names.last());
    if i < rest.len() {
        lemma_kept_names(names.drop_last(), i);
    }
}

/// Cutting a text and joining the pieces with the separator gives the text back.
pub proof fn law_pieces_join(s: Seq<char>, separator: char)
    ensures
        pieces(s, separator).len() > 0,
        joined(pieces(s, separator), separator) == s,
        forall|i: int, j: int|
            0 <= i < pieces(s, separator).len() && 0 <= j < pieces(s, separator)[i].len()
                ==> #[trigger] pieces(s, separator)[i][j] != separator,
    decreases s.len(),
{
    if s.len() > 0 {
        law_pieces_join(s.drop_last(), separator);
        let rest = pieces(s.drop_last(), separator);
        let now = pieces(s, separator);
        if s.last() == separator {
            assert(now.drop_last() =~= rest);
            assert(joined(now, separator) =~= s);
        } else {
            assert(now.drop_last() =~= rest.drop_last());
            assert(now.last() == rest.last().push(s.last()));
            assert(joined(now, separator) =~= joined(rest, separator).push(s.last()));
            assert(joined(now, separator) =~= s);
        }
    } else {
        assert(joined(pieces(s, separator), separator) =~= s);
    }
}

/// Pieces with a separator between each two.
pub open spec fn joined(names: Seq<Seq<char>>, separator: char) -> Seq<char>
    decreases names.len(),
{
    if names.len() == 0 {
        seq![]
    } else if names.len() == 1 {
        names[0]
    } else {
        joined(names.drop_last(), separator).push(separator) + names.last()
    }
}

/// Whether a character stands nowhere in a text.
pub open spec fn free_of(s: Seq<char>, c: char) -> bool {
    forall|i: int| 0 <= i < s.len() ==> #[trigger] s[i] != c
}

/// Whether a text is not empty and begins and ends without white space.
pub open spec fn is_tight(s: Seq<char>) -> bool {
    s.len() > 0 && !is_space(s[0]) && !is_space(s.last())
}

/// A text that begins and ends without white space is not trimmed.
proof fn lemma_tight(s: Seq<char>)
    requires
        is_tight(s),
    ensures
        trimmed(s) == s,
{
    reveal_with_fuel(trimmed_start, 2);
    reveal_with_fuel(trimmed_end, 2);
}

/// A last piece without the separator is cut off as it is.
proof fn lemma_last_piece(a: Seq<char>, b: Seq<char>, separator: char)
    requires
        free_of(b, separator),
    ensures
        pieces(a.push(separator) + b, separator) == pieces(a, separator).push(b),
    decreases b.len(),
{
    law_pieces_join(a, separator);
    if b.len() == 0 {
        assert(a.push(separator) + b =~= a.push(separator));
        assert(a.push(separator).drop_last() =~= a);
        assert(b =~= Seq::<char>::empty());
    } else {
        let c = b.drop_last();
        let s = a.push(separator) + b;
        assert(free_of(c, separator)) by {
            assert forall|i: int| 0 <= i < c.len() implies #[trigger] c[i] != separator by {
                assert(c[i] == b[i]);
            }
        }
        lemma_last_piece(a, c, separator);
        assert(s.drop_last() =~= a.push(separator) + c);
        assert(s.last() == b.last());
        assert(b.last() == b[b.len() - 1]);
        let rest = pieces(s.drop_last(), separator);
        assert(rest.drop_last() =~= pieces(a, separator));
        assert(c.push(b.last()) =~= b);
    }
}

/// A text without the separator is one piece.
proof fn lemma_one_piece(s: Seq<char>, separator: char)
    requires
        free_of(s, separator),
    ensures
        pieces(s, separator) == seq![s],
    decreases s.len(),
{
    if s.len() == 0 {
        assert(s =~= Seq::<char>::empty());
    } else {
        let c = s.drop_last();
        assert(free_of(c, separator)) by {
            assert forall|i: int| 0 <= i < c.len() implies #[trigger] c[i] != separator by {
                assert(c[i] == s[i]);
            }
        }
        lemma_one_piece(c, separator);
        assert(s.last() == s[s.len() - 1]);
        assert(c.push(s.last()) =~= s);
        assert(pieces(s, separator) =~= seq![s]);
    }
}

/// Texts without the separator come back when they are joined and cut.
proof fn lemma_joined_pieces(names: Seq<Seq<char>>, separator: char)
    requires
        names.len() > 0,
        forall|i: int| 0 <= i < names.len() ==> free_of(#[trigger] names[i], separator),
    ensures
        pieces(joined(names, separator), separator) == names,
    decreases names.len(),
{
    if names.len() == 1 {
        lemma_one_piece(names[0], separator);
        assert(names =~= seq![names[0]]);
    } else {
        lemma_joined_pieces(names.drop_last(), separator);
        lemma_last_piece(joined(names.drop_last(), separator), names.last(), separator);
        assert(names.drop_last().push(names.last()) =~= names);
    }
}

/// Names that need no trimming are all kept.
proof fn lemma_all_kept(names: Seq<Seq<char>>)
    requires
        forall|i: int| 0 <= i < names.len() ==> is_tight(#[trigger] names[i]),
    ensures
        kept_names(names) == names,
    decreases names.len(),
{
    if names.len() > 0 {
        lemma_all_kept(names.drop_last());
        lemma_tight(names[names.len() - 1]);
        assert(names.drop_last().push(names.last()) =~= names);
    } else {
        assert(names =~= seq![]);
    }
}

/// How joined names begin and end, and what they are free of.
proof fn lemma_joined_ends(names: Seq<Seq<char>>, c: char)
    requires
        names.len() > 0,
        c != ',',
        forall|i: int|
            0 <= i < names.len() ==> is_tight(#[trigger] names[i]) && free_of(names[i], c),
    ensures
        joined(names, ',').len() > 0,
        joined(names, ',')[0] == names[0][0],
        joined(names, ',').last() == names.last().last(),
        free_of(joined(names, ','), c),
    decreases names.len(),
{
    if names.len() > 1 {
        let rest = joined(names.drop_last(), ',');
        let last = names.last();
        lemma_joined_ends(names.drop_last(), c);
        assert(is_tight(names[names.len() - 1]));
        let s = rest.push(',') + last;
        assert forall|i: int| 0 <= i < s.len() implies #[trigger] s[i] != c by {
            if i < rest.len() {
                assert(s[i] == rest[i]);
            } else if i > rest.len() {
                assert(s[i] == last[i - rest.len() - 1]);
            }
        }
    }
}

/// A signature written as a name and its parameter types in brackets, with commas between
/// them, is read as that name and those types.
pub proof fn law_signature_is_read(name: Seq<char>, types: Seq<Seq<char>>)
    requires
        free_of(name, '('),
        name.len() > 0 ==> !is_space(name[0]),
        forall|i: int|
            0 <= i < types.len() ==> is_tight(#[trigger] types[i]) && free_of(types[i], '(')
                && free_of(types[i], ')') && free_of(types[i], ','),
    ensures
        ({
            let signature = name.push('(') + joined(types, ',').push(')');
            &&& has_parameters(signature)
            &&& method_name(signature) == name
            &&& parameter_types(signature) == types
        }),
{
    let inner = joined(types, ',');
    let list = inner.push(')');
    let signature = name.push('(') + list;
    if types.len() > 0 {
        lemma_joined_ends(types, '(');
        lemma_joined_ends(types, ')');
        assert(is_tight(types[0]));
        assert(inner.last() == inner[inner.len() - 1]);
    }
    assert(is_tight(signature)) by {
        if name.len() > 0 {
            assert(signature[0] == name[0]);
        }
        assert(signature.last() == ')');
    }
    lemma_tight(signature);
    assert forall|i: int| 0 <= i < list.len() implies #[trigger] list[i] != '(' by {
        if i < inner.len() {
            assert(list[i] == inner[i]);
        }
    }
    lemma_last_piece(name, list, '(');
    lemma_one_piece(name, '(');
    assert(pieces(signature, '(') =~= seq![name, list]);
    assert(is_tight(list)) by {
        if inner.len() > 0 {
            assert(list[0] == inner[0]);
        }
    }
    lemma_tight(list);
    reveal_with_fuel(without_trailing, 3);
    assert(list.drop_last() =~= inner);
    assert(without_trailing(list, ')') == inner);
    if types.len() > 0 {
        lemma_joined_pieces(types, ',');
        lemma_all_kept(types);
    } else {
        assert(inner =~= Seq::<char>::empty());
        lemma_one_piece(inner, ',');
        let none = pieces(inner, ',');
        assert(none.last().len() == 0);
        reveal_with_fuel(kept_names, 3);
        reveal_with_fuel(trimmed_start, 2);
        reveal_with_fuel(trimmed_end, 2);
        assert(kept_names(none) =~= types);
    }
}

} // verus!
