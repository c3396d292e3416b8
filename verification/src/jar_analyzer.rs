use vstd::prelude::*;
use crate::type_resolver::{
    JavaType, TypeModel, MethodSignature, ResolveError, spec_parse, params_model, parse_signature,
};

verus! {

/// A resolved method of a class: its name, its access-flag bits, and its
/// parameter and return types as decoded from its descriptor.
#[derive(Debug, PartialEq, Eq)]
pub struct JavaMethod {
    pub name: String,
    pub access_flags: u16,
    pub parameters: Vec<JavaType>,
    pub return_type: JavaType,
}

/// The mathematical model of a [`JavaMethod`].
pub struct MethodModel {
    pub name: Seq<char>,
    pub access_flags: u16,
    pub parameters: Seq<TypeModel>,
    pub return_type: TypeModel,
}

impl View for JavaMethod {
    type V = MethodModel;

    open spec fn view(&self) -> MethodModel {
        MethodModel {
            name: self.name@,
            access_flags: self.access_flags,
            parameters: params_model(self.parameters@),
            return_type: self.return_type@,
        }
    }
}

/// A class of the archive: its archive-internal path, used as its identity,
/// and its resolved methods in class-file order.
#[derive(Debug, PartialEq, Eq)]
pub struct JavaClass {
    pub full_name: String,
    pub name: String,
    pub methods: Vec<JavaMethod>,
}

/// The mathematical model of a [`JavaClass`].
pub struct ClassModel {
    pub full_name: Seq<char>,
    pub name: Seq<char>,
    pub methods: Seq<MethodModel>,
}

impl View for JavaClass {
    type V = ClassModel;

    open spec fn view(&self) -> ClassModel {
        ClassModel {
            full_name: self.full_name@,
            name: self.name@,
            methods: self.methods@.map_values(|m: JavaMethod| m@),
        }
    }
}

/// The UTF8 constants of a constant pool: a map from each index that holds a
/// textual constant to its text. Indices that are out of range or hold a
/// constant of another kind are absent from the map.
pub uninterp spec fn pool_utf8s(pool: jbcrs::basic::Pool) -> Map<int, Seq<char>>;

/// The encoded length of a constant pool: one more than the number of slots
/// it holds, so every occupied index lies strictly below it.
pub uninterp spec fn pool_len(pool: jbcrs::basic::Pool) -> int;

#[verifier::external_type_specification]
#[verifier::external_body]
pub struct ExPool(jbcrs::basic::Pool);

/// Relies on `Pool::len`: the encoded length of the pool. The pool's slot
/// vector holds one entry fewer than this length, at indices 1 up to but not
/// including it, so every index that holds a constant lies strictly between
/// 0 and the encoded length.
#[verifier::external_body]
fn pool_size(pool: &jbcrs::basic::Pool) -> (r: u16)
    ensures
        r as int == pool_len(*pool),
        forall|k: int| pool_utf8s(*pool).contains_key(k) ==> 1 <= k < r as int,
{
    pool.len()
}

/// Relies on `Pool::get_utf8`: for an index strictly between 0 and the
/// pool's encoded length it returns the text exactly where the entry at that
/// index is a UTF8 constant, and an error where it is of another kind. The
/// bounds check inside `Pool::get` admits the index equal to the encoded
/// length, which has no slot and aborts instead of erring, so that index and
/// everything above it stay outside this boundary.
#[verifier::external_body]
fn pool_get_utf8(pool: &jbcrs::basic::Pool, index: u16) -> (r: Option<String>)
    requires
        1 <= index as int,
        (index as int) < pool_len(*pool),
    ensures
        match r {
            Option::Some(text) => pool_utf8s(*pool).contains_key(index as int) && text@
                == pool_utf8s(*pool)[index as int],
            Option::None => !pool_utf8s(*pool).contains_key(index as int),
        },
{
    pool.get_utf8(index).ok()
}

/// One archive entry's decoded class structure: its constant pool, and its
/// method records each reduced to its plain (name index, descriptor index,
/// access-flag bits) triple, in class-file order.
pub struct DecodedClass {
    pub pool: jbcrs::basic::Pool,
    pub methods: Vec<(u16, u16, u16)>,
}

/// The mathematical model of a [`DecodedClass`].
pub struct DecodedClassModel {
    pub pool: Map<int, Seq<char>>,
    pub methods: Seq<(u16, u16, u16)>,
}

impl View for DecodedClass {
    type V = DecodedClassModel;

    open spec fn view(&self) -> DecodedClassModel {
        DecodedClassModel { pool: pool_utf8s(self.pool), methods: self.methods@ }
    }
}

/// The models of a sequence of resolved methods, in order.
pub open spec fn methods_model(ms: Seq<JavaMethod>) -> Seq<MethodModel> {
    ms.map_values(|m: JavaMethod| m@)
}

/// The models of a sequence of collected classes, in order.
pub open spec fn classes_model(cs: Seq<JavaClass>) -> Seq<ClassModel> {
    cs.map_values(|c: JavaClass| c@)
}

/// The models of the archive entries: each archive-internal path with the
/// model of its decode outcome, where an entry that did not decode to a
/// class carries nothing.
pub open spec fn files_model(files: Seq<(String, Option<DecodedClass>)>) -> Seq<
    (Seq<char>, Option<DecodedClassModel>),
> {
    files.map_values(
        |p: (String, Option<DecodedClass>)|
            (
                p.0@,
                match p.1 {
                    Option::Some(d) => Option::Some(d@),
                    Option::None => Option::None,
                },
            ),
    )
}

/// Resolving the method records `ms` of one class against the UTF8 constants
/// `pool`. A record whose descriptor index is absent from `pool`, or whose
/// descriptor does not parse, is skipped; a record whose descriptor parses
/// but whose name index is absent fails the whole class, since every valid
/// method must have a name.
pub open spec fn spec_collect(pool: Map<int, Seq<char>>, ms: Seq<(u16, u16, u16)>) -> Option<
    Seq<MethodModel>,
>
    decreases ms.len(),
{
    if ms.len() == 0 {
        Option::Some(Seq::empty())
    } else {
        let m = ms[0];
        if !pool.contains_key(m.1 as int) {
            spec_collect(pool, ms.drop_first())
        } else {
            match spec_parse(pool[m.1 as int]) {
                Option::None => spec_collect(pool, ms.drop_first()),
                Option::Some(sig) => if !pool.contains_key(m.0 as int) {
                    Option::None
                } else {
                    match spec_collect(pool, ms.drop_first()) {
                        Option::Some(rest) => Option::Some(
                            seq![
                                MethodModel {
                                    name: pool[m.0 as int],
                                    access_flags: m.2,
                                    parameters: sig.parameters,
                                    return_type: sig.return_type,
                                }
                            ] + rest,
                        ),
                        Option::None => Option::None,
                    }
                },
            }
        }
    }
}

/// Analyzing an archive's entries: each entry that decoded to a class and
/// whose methods collect successfully contributes one class, under its
/// archive-internal path, in entry order; every other entry is skipped.
pub open spec fn spec_analyze(files: Seq<(Seq<char>, Option<DecodedClassModel>)>) -> Seq<
    ClassModel,
>
    decreases files.len(),
{
    if files.len() == 0 {
        Seq::empty()
    } else {
        let (path, entry) = files[0];
        let rest = spec_analyze(files.drop_first());
        match entry {
            Option::Some(d) => match spec_collect(d.pool, d.methods) {
                Option::Some(methods) => seq![
                    ClassModel { full_name: path, name: path, methods }
                ] + rest,
                Option::None => rest,
            },
            Option::None => rest,
        }
    }
}

/// Resolves the method records of one decoded class against its constant
/// pool: the resolved methods in record order, or the error where a record
/// with a parseable descriptor has no textual name constant. An index of
/// zero or at or beyond the pool's encoded length holds no constant and is
/// treated as absent without touching the pool.
pub fn collect_methods(pool: &jbcrs::basic::Pool, methods: &Vec<(u16, u16, u16)>) -> (r: Result<
    Vec<JavaMethod>,
    ResolveError,
>)
    ensures
        match r {
            Result::Ok(v) => spec_collect(pool_utf8s(*pool), methods@) == Option::Some(
                methods_model(v@),
            ),
            Result::Err(e) => spec_collect(pool_utf8s(*pool), methods@) is None && e
                == ResolveError::MissingConstant,
        },
{
    let ghost pm = pool_utf8s(*pool);
    let size = pool_size(pool);
    let mut out: Vec<JavaMethod> = Vec::new();
    let mut i: usize = 0;
    let n = methods.len();
    proof {
        assert(methods@.skip(0) =~= methods@);
        match spec_collect(pm, methods@) {
            Option::Some(rest) => {
                assert(methods_model(out@) + rest =~= rest);
            },
            Option::None => {},
        }
    }
    while i < n
        invariant
            n == methods@.len(),
            i <= n,
            pm == pool_utf8s(*pool),
            size as int == pool_len(*pool),
            forall|k: int| pm.contains_key(k) ==> 1 <= k < size as int,
            spec_collect(pm, methods@) == match spec_collect(pm, methods@.skip(i as int)) {
                Option::Some(rest) => Option::Some((methods_model(out@) + rest)),
                Option::None => Option::None,
            },
        decreases n - i,
    {
        let m = methods[i];
        proof {
            assert(methods@.skip(i as int)[0] == methods@[i as int]);
            assert(methods@.skip(i as int).drop_first() =~= methods@.skip(i as int + 1));
        }
        let desc_text: Option<String> = if 1 <= m.1 && m.1 < size {
            pool_get_utf8(pool, m.1)
        } else {
            Option::None
        };
        match desc_text {
            Option::None => {},
            Option::Some(text) => {
                match parse_signature(text.as_str()) {
                    Result::Err(_) => {},
                    Result::Ok(sig) => {
                        let name_text: Option<String> = if 1 <= m.0 && m.0 < size {
                            pool_get_utf8(pool, m.0)
                        } else {
                            Option::None
                        };
                        match name_text {
                            Option::None => {
                                return Result::Err(ResolveError::MissingConstant);
                            },
                            Option::Some(name) => {
                                let MethodSignature { parameters, return_type } = sig;
                                let jm = JavaMethod {
                                    name,
                                    access_flags: m.2,
                                    parameters,
                                    return_type,
                                };
                                proof {
                                    let ghost head = jm@;
                                    match spec_collect(pm, methods@.skip(i as int + 1)) {
                                        Option::Some(rest2) => {
                                            assert(methods_model(out@.push(jm)) =~= methods_model(
                                                out@,
                                            ).push(head));
                                            assert(methods_model(out@) + (seq![head] + rest2)
                                                =~= methods_model(out@.push(jm)) + rest2);
                                        },
                                        Option::None => {},
                                    }
                                }
                                out.push(jm);
                            },
                        }
                    },
                }
            },
        }
        i = i + 1;
    }
    proof {
        assert(methods@.skip(n as int) =~= Seq::<(u16, u16, u16)>::empty());
        assert(methods_model(out@) + Seq::<MethodModel>::empty() =~= methods_model(out@));
    }
    Result::Ok(out)
}

/// Holds the archive's entries, each already decoded (or not) from its raw
/// bytes, and resolves every method of every decoded class among them.
pub struct JarAnalyzer {
    class_files: Vec<(String, Option<DecodedClass>)>,
}

impl View for JarAnalyzer {
    type V = Seq<(Seq<char>, Option<DecodedClassModel>)>;

    closed spec fn view(&self) -> Seq<(Seq<char>, Option<DecodedClassModel>)> {
        files_model(self.class_files@)
    }
}

impl JarAnalyzer {
    /// Takes the archive's contents as one pair per file: the
    /// archive-internal path, and the outcome of decoding the file's bytes
    /// as a class, where a file that did not decode carries nothing.
    pub fn new(class_files: Vec<(String, Option<DecodedClass>)>) -> (r: JarAnalyzer)
        ensures
            r@ == files_model(class_files@),
    {
        JarAnalyzer { class_files }
    }

    /// Resolves every method of every decoded class of the archive: one
    /// entry per class whose methods collect, in file order; entries that
    /// did not decode, and classes whose collection fails, are skipped.
    pub fn get_classes(&self) -> (r: Vec<JavaClass>)
        ensures
            classes_model(r@) == spec_analyze(self@),
    {
        let mut out: Vec<JavaClass> = Vec::new();
        let mut i: usize = 0;
        let n = self.class_files.len();
        proof {
            assert(self@.skip(0) =~= self@);
            assert(classes_model(out@) + spec_analyze(self@) =~= spec_analyze(self@));
        }
        while i < n
            invariant
                n == self.class_files@.len(),
                i <= n,
                self@.len() == n,
                spec_analyze(self@) == classes_model(out@) + spec_analyze(
                    self@.skip(i as int),
                ),
            decreases n - i,
        {
            let entry = &self.class_files[i];
            proof {
                assert(self@[i as int] == (self.class_files@[i as int].0@, match self.class_files@[
                    i as int].1 {
                    Option::Some(d) => Option::Some(d@),
                    Option::None => Option::None,
                }));
                assert(self@.skip(i as int)[0] == self@[i as int]);
                assert(self@.skip(i as int).drop_first() =~= self@.skip(i as int + 1));
            }
            match &entry.1 {
                Option::None => {},
                Option::Some(dc) => {
                    match collect_methods(&dc.pool, &dc.methods) {
                        Result::Err(_) => {},
                        Result::Ok(jms) => {
                            let jc = JavaClass {
                                full_name: entry.0.clone(),
                                name: entry.0.clone(),
                                methods: jms,
                            };
                            proof {
                                let ghost head = jc@;
                                assert(classes_model(out@.push(jc)) =~= classes_model(out@).push(
                                    head,
                                ));
                                assert((classes_model(out@) + (seq![head] + spec_analyze(
                                    self@.skip(i as int + 1),
                                ))) =~= (classes_model(out@.push(jc)) + spec_analyze(
                                    self@.skip(i as int + 1),
                                )));
                            }
                            out.push(jc);
                        },
                    }
                },
            }
            i = i + 1;
        }
        proof {
            assert(self@.skip(n as int) =~= Seq::<(Seq<char>, Option<DecodedClassModel>)>::empty());
            assert(classes_model(out@) + Seq::<ClassModel>::empty() =~= classes_model(out@));
        }
        out
    }
}

/// An entry that did not decode to a class contributes nothing to the
/// analysis: the result over the archive equals the result with that entry
/// removed, and no error is raised for it.
pub proof fn lemma_undecoded_entry_skipped(
    files: Seq<(Seq<char>, Option<DecodedClassModel>)>,
    i: int,
)
    requires
        0 <= i < files.len(),
        files[i].1 is None,
    ensures
        spec_analyze(files) == spec_analyze(files.remove(i)),
    decreases i,
{
    if i == 0 {
        assert(files.remove(0) =~= files.drop_first());
    } else {
        lemma_undecoded_entry_skipped(files.drop_first(), i - 1);
        assert(files.drop_first().remove(i - 1) =~= files.remove(i).drop_first());
        assert(files.remove(i)[0] == files[0]);
    }
}

/// An archive holding one entry that decodes to a class whose methods all
/// collect, and one entry that does not decode, yields exactly one class,
/// for the decodable entry, whichever order the two stand in.
pub proof fn lemma_one_valid_one_invalid_entry(
    p_ok: Seq<char>,
    d: DecodedClassModel,
    p_bad: Seq<char>,
)
    requires
        spec_collect(d.pool, d.methods) is Some,
    ensures
        ({
            let r = spec_analyze(seq![(p_ok, Option::Some(d)), (p_bad, Option::None)]);
            r.len() == 1 && r[0].full_name == p_ok && Option::Some(r[0].methods) == spec_collect(
                d.pool,
                d.methods,
            )
        }),
        ({
            let r = spec_analyze(seq![(p_bad, Option::None), (p_ok, Option::Some(d))]);
            r.len() == 1 && r[0].full_name == p_ok && Option::Some(r[0].methods) == spec_collect(
                d.pool,
                d.methods,
            )
        }),
{
    let one = seq![(p_ok, Option::Some(d))];
    let no_files = Seq::<(Seq<char>, Option<DecodedClassModel>)>::empty();
    assert(spec_analyze(no_files) == Seq::<ClassModel>::empty());
    assert(one.len() == 1 && one[0] == (p_ok, Option::Some(d)));
    assert(one.drop_first() =~= no_files);
    match spec_collect(d.pool, d.methods) {
        Option::Some(methods) => {
            let cm = ClassModel { full_name: p_ok, name: p_ok, methods };
            assert(spec_analyze(one) == seq![cm] + spec_analyze(one.drop_first()));
            assert(seq![cm] + Seq::<ClassModel>::empty() =~= seq![cm]);
            assert(spec_analyze(one) == seq![cm]);
        },
        Option::None => {},
    }
    let files1 = seq![(p_ok, Option::Some(d)), (p_bad, Option::None)];
    lemma_undecoded_entry_skipped(files1, 1);
    assert(files1.remove(1) =~= one);
    let files2 = seq![(p_bad, Option::None), (p_ok, Option::Some(d))];
    lemma_undecoded_entry_skipped(files2, 0);
    assert(files2.remove(0) =~= one);
}

/// A class none of whose method records has a textual descriptor constant
/// collects to the empty method sequence, not to a failure.
pub proof fn lemma_no_textual_descriptor_no_methods(
    pool: Map<int, Seq<char>>,
    ms: Seq<(u16, u16, u16)>,
)
    requires
        forall|k: int| 0 <= k < ms.len() ==> !pool.contains_key(ms[k].1 as int),
    ensures
        spec_collect(pool, ms) == Option::Some(Seq::<MethodModel>::empty()),
    decreases ms.len(),
{
    if ms.len() > 0 {
        assert(forall|k: int|
            0 <= k < ms.drop_first().len() ==> ms.drop_first()[k] == ms[k + 1]);
        lemma_no_textual_descriptor_no_methods(pool, ms.drop_first());
    }
}

} // verus!
