use vstd::prelude::*;

verus! {

/// A decoded Java type, as found in a method descriptor: one of the fixed
/// primitives, an array of an inner type (arbitrary nesting), or a reference
/// to a class by its fully qualified internal name.
#[derive(Debug, PartialEq, Eq)]
pub enum JavaType {
    Int,
    Long,
    Float,
    Double,
    Byte,
    Char,
    Short,
    Boolean,
    Array(Box<JavaType>),
    Reference(String),
    Void,
}

/// The mathematical model of a [`JavaType`]: the same tree, with class names
/// as character sequences.
pub enum TypeModel {
    Int,
    Long,
    Float,
    Double,
    Byte,
    Char,
    Short,
    Boolean,
    Array(Box<TypeModel>),
    Reference(Seq<char>),
    Void,
}

/// The model of a [`JavaType`] value: the same tree over character sequences.
pub open spec fn type_model(t: JavaType) -> TypeModel
    decreases t,
{
    match t {
        JavaType::Int => TypeModel::Int,
        JavaType::Long => TypeModel::Long,
        JavaType::Float => TypeModel::Float,
        JavaType::Double => TypeModel::Double,
        JavaType::Byte => TypeModel::Byte,
        JavaType::Char => TypeModel::Char,
        JavaType::Short => TypeModel::Short,
        JavaType::Boolean => TypeModel::Boolean,
        JavaType::Array(inner) => TypeModel::Array(Box::new(type_model(*inner))),
        JavaType::Reference(name) => TypeModel::Reference(name@),
        JavaType::Void => TypeModel::Void,
    }
}

impl View for JavaType {
    type V = TypeModel;

    open spec fn view(&self) -> TypeModel {
        type_model(*self)
    }
}

/// A parsed method signature: the parameter types in descriptor order, and
/// exactly one return type.
#[derive(Debug, PartialEq, Eq)]
pub struct MethodSignature {
    pub parameters: Vec<JavaType>,
    pub return_type: JavaType,
}

/// The mathematical model of a [`MethodSignature`].
pub struct SignatureModel {
    pub parameters: Seq<TypeModel>,
    pub return_type: TypeModel,
}

impl View for MethodSignature {
    type V = SignatureModel;

    open spec fn view(&self) -> SignatureModel {
        SignatureModel {
            parameters: self.parameters@.map_values(|t: JavaType| t@),
            return_type: self.return_type@,
        }
    }
}

/// The outcome of decoding one token of a descriptor: a type, a character
/// that carries no type (such as the opening parenthesis), or the end of the
/// parameter list.
#[derive(Debug, PartialEq, Eq)]
pub enum GetTypeResponse {
    Token(JavaType),
    NotAToken,
    EndOfParsing,
}

/// The mathematical model of a [`GetTypeResponse`].
pub enum OutcomeModel {
    Token(TypeModel),
    NotAToken,
    EndOfParsing,
}

impl View for GetTypeResponse {
    type V = OutcomeModel;

    open spec fn view(&self) -> OutcomeModel {
        match self {
            GetTypeResponse::Token(t) => OutcomeModel::Token(t@),
            GetTypeResponse::NotAToken => OutcomeModel::NotAToken,
            GetTypeResponse::EndOfParsing => OutcomeModel::EndOfParsing,
        }
    }
}

/// Why resolution of a method or descriptor failed.
#[derive(Debug, PartialEq, Eq, Clone, Copy)]
pub enum ResolveError {
    /// The descriptor has no decodable return type after its parameter list,
    /// or the parameter list never ends before the input does.
    MalformedDescriptor,
    /// A method's name index does not resolve to a textual constant.
    MissingConstant,
}

/// The position of the first `;` at or after `i` in `s`, if any.
pub open spec fn spec_find_semi(s: Seq<char>, i: int) -> Option<int>
    decreases s.len() - i,
{
    if i < 0 || i >= s.len() {
        Option::None
    } else if s[i] == ';' {
        Option::Some(i)
    } else {
        spec_find_semi(s, i + 1)
    }
}

/// Decoding one token of descriptor `s` starting at position `i`: the outcome
/// and the position just past the consumed characters.
pub open spec fn spec_get_type(s: Seq<char>, i: int) -> (OutcomeModel, int)
    recommends
        0 <= i < s.len(),
    decreases s.len() - i,
{
    let c = s[i];
    if c == 'I' {
        (OutcomeModel::Token(TypeModel::Int), i + 1)
    } else if c == 'J' {
        (OutcomeModel::Token(TypeModel::Long), i + 1)
    } else if c == 'F' {
        (OutcomeModel::Token(TypeModel::Float), i + 1)
    } else if c == 'D' {
        (OutcomeModel::Token(TypeModel::Double), i + 1)
    } else if c == 'B' {
        (OutcomeModel::Token(TypeModel::Byte), i + 1)
    } else if c == 'C' {
        (OutcomeModel::Token(TypeModel::Char), i + 1)
    } else if c == 'S' {
        (OutcomeModel::Token(TypeModel::Short), i + 1)
    } else if c == 'Z' {
        (OutcomeModel::Token(TypeModel::Boolean), i + 1)
    } else if c == 'V' {
        (OutcomeModel::Token(TypeModel::Void), i + 1)
    } else if c == '[' {
        if i + 1 < s.len() {
            let (o, j) = spec_get_type(s, i + 1);
            match o {
                OutcomeModel::Token(t) => (OutcomeModel::Token(TypeModel::Array(Box::new(t))), j),
                _ => (OutcomeModel::NotAToken, j),
            }
        } else {
            (OutcomeModel::NotAToken, i + 1)
        }
    } else if c == 'L' {
        match spec_find_semi(s, i + 1) {
            Option::Some(k) => (
                OutcomeModel::Token(TypeModel::Reference(s.subrange(i + 1, k))),
                k + 1,
            ),
            Option::None => (OutcomeModel::NotAToken, s.len() as int),
        }
    } else if c == ')' {
        (OutcomeModel::EndOfParsing, i + 1)
    } else {
        (OutcomeModel::NotAToken, i + 1)
    }
}

/// Where `spec_find_semi` finds a `;`, it is the first one at or after `i`;
/// where it finds none, there is none up to the end of `s`.
pub proof fn lemma_find_semi_props(s: Seq<char>, i: int)
    requires
        0 <= i <= s.len(),
    ensures
        match spec_find_semi(s, i) {
            Option::Some(k) => i <= k < s.len() && s[k] == ';' && (forall|m: int|
                i <= m < k ==> s[m] != ';'),
            Option::None => forall|m: int| i <= m < s.len() ==> s[m] != ';',
        },
    decreases s.len() - i,
{
    if i < s.len() && s[i] != ';' {
        lemma_find_semi_props(s, i + 1);
    }
}

/// Decoding a token never stays in place and never runs past the end.
pub proof fn lemma_get_type_advances(s: Seq<char>, i: int)
    requires
        0 <= i < s.len(),
    ensures
        i < spec_get_type(s, i).1 <= s.len(),
    decreases s.len() - i,
{
    let c = s[i];
    if c == '[' {
        if i + 1 < s.len() {
            lemma_get_type_advances(s, i + 1);
        }
    } else if c == 'L' {
        lemma_find_semi_props(s, i + 1);
    }
}

/// Consuming parameter tokens of `s` from position `i` until the end of the
/// parameter list: the decoded parameter types in order and the position just
/// past the closing parenthesis, or nothing where the input ends first.
pub open spec fn spec_parse_params(s: Seq<char>, i: int) -> Option<(Seq<TypeModel>, int)>
    decreases s.len() - i,
        via spec_parse_params_decreases
{
    if i < 0 || i >= s.len() {
        Option::None
    } else {
        let (o, j) = spec_get_type(s, i);
        match o {
            OutcomeModel::Token(t) => match spec_parse_params(s, j) {
                Option::Some((rest, k)) => Option::Some((seq![t] + rest, k)),
                Option::None => Option::None,
            },
            OutcomeModel::NotAToken => spec_parse_params(s, j),
            OutcomeModel::EndOfParsing => Option::Some((Seq::empty(), j)),
        }
    }
}

#[via_fn]
proof fn spec_parse_params_decreases(s: Seq<char>, i: int) {
    if 0 <= i < s.len() {
        lemma_get_type_advances(s, i);
    }
}

/// Parsing a whole method descriptor: the parameter list up to the closing
/// parenthesis, then exactly one return-type token. Nothing is returned where
/// the parameter list never ends, where no character remains for the return
/// type, or where the return-type token does not decode to a type.
pub open spec fn spec_parse(s: Seq<char>) -> Option<SignatureModel> {
    match spec_parse_params(s, 0) {
        Option::Some((params, i)) => if 0 <= i < s.len() {
            let (o, j) = spec_get_type(s, i);
            match o {
                OutcomeModel::Token(t) => Option::Some(
                    SignatureModel { parameters: params, return_type: t },
                ),
                _ => Option::None,
            }
        } else {
            Option::None
        },
        Option::None => Option::None,
    }
}

/// Decodes the descriptor token of `s` that starts at position `i`, returning
/// the outcome and the position just past the consumed characters.
pub fn get_type(s: &str, i: usize) -> (r: (GetTypeResponse, usize))
    requires
        i < s@.len(),
    ensures
        r.0@ == spec_get_type(s@, i as int).0,
        r.1 as int == spec_get_type(s@, i as int).1,
        i < r.1 <= s@.len(),
    decreases s@.len() - i,
{
    proof {
        lemma_get_type_advances(s@, i as int);
    }
    let n = s.unicode_len();
    let c = s.get_char(i);
    if c == 'I' {
        (GetTypeResponse::Token(JavaType::Int), i + 1)
    } else if c == 'J' {
        (GetTypeResponse::Token(JavaType::Long), i + 1)
    } else if c == 'F' {
        (GetTypeResponse::Token(JavaType::Float), i + 1)
    } else if c == 'D' {
        (GetTypeResponse::Token(JavaType::Double), i + 1)
    } else if c == 'B' {
        (GetTypeResponse::Token(JavaType::Byte), i + 1)
    } else if c == 'C' {
        (GetTypeResponse::Token(JavaType::Char), i + 1)
    } else if c == 'S' {
        (GetTypeResponse::Token(JavaType::Short), i + 1)
    } else if c == 'Z' {
        (GetTypeResponse::Token(JavaType::Boolean), i + 1)
    } else if c == 'V' {
        (GetTypeResponse::Token(JavaType::Void), i + 1)
    } else if c == '[' {
        if i + 1 < n {
            let (o, j) = get_type(s, i + 1);
            match o {
                GetTypeResponse::Token(t) => (
                    GetTypeResponse::Token(JavaType::Array(Box::new(t))),
                    j,
                ),
                _ => (GetTypeResponse::NotAToken, j),
            }
        } else {
            (GetTypeResponse::NotAToken, i + 1)
        }
    } else if c == 'L' {
        let mut j: usize = i + 1;
        while j < n && s.get_char(j) != ';'
            invariant
                i + 1 <= j <= n,
                n == s@.len(),
                i < n,
                forall|m: int| i + 1 <= m < j ==> s@[m] != ';',
            decreases n - j,
        {
            j = j + 1;
        }
        if j < n {
            assert(spec_find_semi(s@, i as int + 1) == Option::<int>::Some(j as int)) by {
                lemma_find_semi_first(s@, i as int + 1, j as int);
            }
            let name = s.substring_char(i + 1, j).to_owned();
            (GetTypeResponse::Token(JavaType::Reference(name)), j + 1)
        } else {
            assert(spec_find_semi(s@, i as int + 1) is None) by {
                lemma_find_semi_none(s@, i as int + 1);
            }
            (GetTypeResponse::NotAToken, j)
        }
    } else if c == ')' {
        (GetTypeResponse::EndOfParsing, i + 1)
    } else {
        (GetTypeResponse::NotAToken, i + 1)
    }
}

/// The first `;` at or after `i` is found where it stands.
proof fn lemma_find_semi_first(s: Seq<char>, i: int, k: int)
    requires
        0 <= i <= k < s.len(),
        s[k] == ';',
        forall|m: int| i <= m < k ==> s[m] != ';',
    ensures
        spec_find_semi(s, i) == Option::<int>::Some(k),
    decreases k - i,
{
    if i < k {
        lemma_find_semi_first(s, i + 1, k);
    }
}

/// Where no `;` stands at or after `i`, none is found.
proof fn lemma_find_semi_none(s: Seq<char>, i: int)
    requires
        0 <= i <= s.len(),
        forall|m: int| i <= m < s.len() ==> s[m] != ';',
    ensures
        spec_find_semi(s, i) is None,
    decreases s.len() - i,
{
    if i < s.len() {
        lemma_find_semi_none(s, i + 1);
    }
}

/// The models of a sequence of decoded types, in order.
pub open spec fn params_model(ts: Seq<JavaType>) -> Seq<TypeModel> {
    ts.map_values(|t: JavaType| t@)
}

/// Parses a full method descriptor: the parameter types between the
/// parentheses, in order, and the return type that follows. Fails with
/// [`ResolveError::MalformedDescriptor`] exactly where the model parse
/// yields nothing: the parameter list never ends before the input does, no
/// character remains for the return type, or the return-type token does not
/// decode to a type.
pub fn parse_signature(signature: &str) -> (r: Result<MethodSignature, ResolveError>)
    ensures
        match r {
            Result::Ok(sig) => spec_parse(signature@) == Option::Some(sig@),
            Result::Err(e) => spec_parse(signature@) is None && e
                == ResolveError::MalformedDescriptor,
        },
{
    let ghost s = signature@;
    let n = signature.unicode_len();
    let mut parameters: Vec<JavaType> = Vec::new();
    let mut i: usize = 0;
    proof {
        match spec_parse_params(s, 0) {
            Option::Some((rest, k)) => {
                assert(params_model(parameters@) + rest =~= rest);
            },
            Option::None => {},
        }
    }
    loop
        invariant_except_break
            spec_parse_params(s, 0) == match spec_parse_params(s, i as int) {
                Option::Some((rest, k)) => Option::Some(
                    (params_model(parameters@) + rest, k),
                ),
                Option::None => Option::None,
            },
        invariant
            n == s.len(),
            s == signature@,
            i <= n,
        ensures
            spec_parse_params(s, 0) == Option::Some((params_model(parameters@), i as int)),
            i <= n,
        decreases n - i,
    {
        if i >= n {
            return Result::Err(ResolveError::MalformedDescriptor);
        }
        let (o, j) = get_type(signature, i);
        match o {
            GetTypeResponse::Token(t) => {
                proof {
                    let ps = parameters@;
                    match spec_parse_params(s, j as int) {
                        Option::Some((rest2, k2)) => {
                            assert(params_model(ps.push(t)) =~= params_model(ps).push(t@));
                            assert(params_model(ps) + (seq![t@] + rest2) =~= params_model(
                                ps.push(t),
                            ) + rest2);
                        },
                        Option::None => {},
                    }
                }
                parameters.push(t);
                i = j;
            },
            GetTypeResponse::NotAToken => {
                i = j;
            },
            GetTypeResponse::EndOfParsing => {
                proof {
                    assert(params_model(parameters@) + Seq::<TypeModel>::empty() =~= params_model(
                        parameters@,
                    ));
                }
                i = j;
                break;
            },
        }
    }
    if i >= n {
        return Result::Err(ResolveError::MalformedDescriptor);
    }
    let (o, _j) = get_type(signature, i);
    match o {
        GetTypeResponse::Token(t) => Result::Ok(MethodSignature { parameters, return_type: t }),
        _ => Result::Err(ResolveError::MalformedDescriptor),
    }
}

/// The type `t` wrapped in `n` nested arrays.
pub open spec fn nested_array(t: TypeModel, n: nat) -> TypeModel
    decreases n,
{
    if n == 0 {
        t
    } else {
        TypeModel::Array(Box::new(nested_array(t, (n - 1) as nat)))
    }
}

/// Arbitrary array nesting: decoding `n` array markers followed by a token
/// that decodes to the type `t` yields `t` wrapped in `n` nested arrays, and
/// consumes exactly the markers and that token.
pub proof fn lemma_array_nesting(s: Seq<char>, i: int, n: int, t: TypeModel)
    requires
        0 <= n,
        0 <= i,
        i + n < s.len(),
        forall|m: int| i <= m < i + n ==> s[m] == '[',
        spec_get_type(s, i + n).0 == OutcomeModel::Token(t),
    ensures
        spec_get_type(s, i) == (
            OutcomeModel::Token(nested_array(t, n as nat)),
            spec_get_type(s, i + n).1,
        ),
    decreases n,
{
    if n > 0 {
        lemma_array_nesting(s, i + 1, n - 1, t);
    }
}

/// A reference token captures exactly the characters strictly between the
/// `L` and the first `;`: the terminating `;` is consumed from the cursor but
/// never included in the captured name.
pub proof fn lemma_reference_excludes_terminator(s: Seq<char>, i: int)
    requires
        0 <= i < s.len(),
        s[i] == 'L',
    ensures
        ({
            let (o, j) = spec_get_type(s, i);
            o matches OutcomeModel::Token(t) ==> {
                &&& i + 1 <= j - 1 < s.len()
                &&& s[j - 1] == ';'
                &&& t == TypeModel::Reference(s.subrange(i + 1, j - 1))
                &&& forall|m: int| i + 1 <= m < j - 1 ==> s[m] != ';'
            }
        }),
{
    lemma_find_semi_props(s, i + 1);
}

/// Re-parsing the same descriptor text always yields the same signature: the
/// parse is a pure function of the characters, with no hidden state across
/// calls.
pub proof fn lemma_parse_deterministic(s1: Seq<char>, s2: Seq<char>)
    requires
        s1 == s2,
    ensures
        spec_parse(s1) == spec_parse(s2),
{
}

} // verus!
