//! The share-id grammar.
//!
//! A share id declares the tags and options of a session: comma-separated
//! fields with all whitespace stripped first.  A field is empty (skipped),
//! a bare token (`nostop`, `log`, or a private tag) or `keyword:value`
//! (`pub`, `public`, `priv`, `private`, `points`, `expire`, `name`,
//! `log:name`).  An absent share id stands for one freshly generated
//! private tag.

use vstd::prelude::*;

use crate::numbers::{digits_val, duration_micros, valid_duration, valid_usize};
use crate::shims::{chars_to_string, fresh_id, string_chars, whitespace_char};
use crate::tags::{trimmed, valid_tag_name, Tag, TagAux, TagAuxV, TagError, TagVisibility, TagsAux};
use vstd::string::StringExecFns;

verus! {

/// Which telemetry a session asked to log.
#[derive(Debug, Clone, Copy, PartialEq, Eq, Structural)]
pub struct Log {
    pub name: bool,
}

/// The view of `Options`.
pub ghost struct OptionsV {
    pub max_points: Option<int>,
    pub max_point_age_us: Option<int>,
    pub no_stop: bool,
    pub log: Option<Log>,
    pub name: Option<Seq<char>>,
}

impl OptionsV {
    /// The options of a share id that sets none.
    pub open spec fn init() -> OptionsV {
        OptionsV { max_points: None, max_point_age_us: None, no_stop: false, log: None, name: None }
    }
}

/// Options a share id can set.
#[derive(Debug)]
pub struct Options {
    pub max_points: Option<usize>,
    pub max_point_age_us: Option<i64>,
    pub no_stop: bool,
    pub log: Option<Log>,
    pub name: Option<String>,
}

impl View for Options {
    type V = OptionsV;

    open spec fn view(&self) -> OptionsV {
        OptionsV {
            max_points: match self.max_points {
                Some(n) => Some(n as int),
                None => None,
            },
            max_point_age_us: match self.max_point_age_us {
                Some(a) => Some(a as int),
                None => None,
            },
            no_stop: self.no_stop,
            log: self.log,
            name: match self.name {
                Some(ref n) => Some(n@),
                None => None,
            },
        }
    }
}

impl Default for Options {
    fn default() -> (r: Options)
        ensures
            r@ == OptionsV::init(),
    {
        Options { max_points: None, max_point_age_us: None, no_stop: false, log: None, name: None }
    }
}

/// Why a share id was rejected.
#[derive(Debug, Clone, Copy, PartialEq, Eq, Structural)]
pub enum ShareIdError {
    /// A tag name was empty or held a forbidden character.
    Tag(TagError),
    /// The `points` value was not an unsigned integer in range.
    Points,
    /// The `expire` value was not a duration.
    Expire,
    /// The `log` keyword allows only the value `name`.
    LogValue,
    /// An unknown keyword.
    Keyword,
}

/// The error classes of the grammar, with no regard to which character
/// offended.
pub ghost enum FieldErr {
    Tag,
    Points,
    Expire,
    LogValue,
    Keyword,
}

pub open spec fn err_kind(e: ShareIdError) -> FieldErr {
    match e {
        ShareIdError::Tag(_) => FieldErr::Tag,
        ShareIdError::Points => FieldErr::Points,
        ShareIdError::Expire => FieldErr::Expire,
        ShareIdError::LogValue => FieldErr::LogValue,
        ShareIdError::Keyword => FieldErr::Keyword,
    }
}

/// The string without any whitespace characters.
pub open spec fn strip_ws(s: Seq<char>) -> Seq<char>
    decreases s.len(),
{
    if s.len() == 0 {
        s
    } else if whitespace_char(s[0]) {
        strip_ws(s.drop_first())
    } else {
        seq![s[0]] + strip_ws(s.drop_first())
    }
}

/// The fields between commas, in order; the empty string has one empty
/// field, as `str::split` sees it.
pub open spec fn split_commas(s: Seq<char>) -> Seq<Seq<char>>
    decreases s.len(),
{
    if s.len() == 0 {
        seq![Seq::<char>::empty()]
    } else if s[0] == ',' {
        seq![Seq::<char>::empty()] + split_commas(s.drop_first())
    } else {
        let rest = split_commas(s.drop_first());
        seq![seq![s[0]] + rest[0]] + rest.drop_first()
    }
}

pub proof fn lemma_split_commas_nonempty(s: Seq<char>)
    ensures
        split_commas(s).len() >= 1,
    decreases s.len(),
{
    if s.len() > 0 {
        lemma_split_commas_nonempty(s.drop_first());
    }
}

/// The field before the first colon and the rest, where the field has one.
pub open spec fn split_colon(f: Seq<char>) -> Option<(Seq<char>, Seq<char>)>
    decreases f.len(),
{
    if f.len() == 0 {
        None
    } else if f[0] == ':' {
        Some((Seq::<char>::empty(), f.drop_first()))
    } else {
        match split_colon(f.drop_first()) {
            Option::None => None,
            Option::Some(kv) => Some((seq![f[0]] + kv.0, kv.1)),
        }
    }
}

/// What one field of a share id does.
pub ghost enum FieldEffect {
    /// An empty field: nothing.
    Skip,
    /// `nostop`: the session survives an explicit stop.
    NoStop,
    /// A bare `log`: default log flags.
    LogDefault,
    /// `log:name`: log the name.
    LogName,
    /// A tag with its visibility.
    AddTag(TagAuxV),
    /// `points:n`.
    Points(int),
    /// `expire:d`, in microseconds.
    Age(int),
    /// `name:v`, verbatim.
    Name(Seq<char>),
}

/// The effect of one whitespace-free field, or the error it raises.
pub open spec fn field_effect(f: Seq<char>) -> Result<FieldEffect, FieldErr> {
    if f.len() == 0 {
        Ok(FieldEffect::Skip)
    } else {
        match split_colon(f) {
            Option::Some(kv) => {
                let k = kv.0;
                let v = kv.1;
                if k == "pub"@ || k == "public"@ {
                    if valid_tag_name(trimmed(v)) {
                        Ok(FieldEffect::AddTag(TagAuxV { name: trimmed(v), public: true }))
                    } else {
                        Err(FieldErr::Tag)
                    }
                } else if k == "priv"@ || k == "private"@ {
                    if valid_tag_name(trimmed(v)) {
                        Ok(FieldEffect::AddTag(TagAuxV { name: trimmed(v), public: false }))
                    } else {
                        Err(FieldErr::Tag)
                    }
                } else if k == "points"@ {
                    if valid_usize(v) {
                        Ok(FieldEffect::Points(digits_val(v)))
                    } else {
                        Err(FieldErr::Points)
                    }
                } else if k == "expire"@ {
                    if valid_duration(v) {
                        Ok(FieldEffect::Age(duration_micros(v)->Ok_0))
                    } else {
                        Err(FieldErr::Expire)
                    }
                } else if k == "name"@ {
                    Ok(FieldEffect::Name(v))
                } else if k == "log"@ {
                    if v == "name"@ {
                        Ok(FieldEffect::LogName)
                    } else {
                        Err(FieldErr::LogValue)
                    }
                } else {
                    Err(FieldErr::Keyword)
                }
            },
            Option::None => {
                if f == "nostop"@ {
                    Ok(FieldEffect::NoStop)
                } else if f == "log"@ {
                    Ok(FieldEffect::LogDefault)
                } else if valid_tag_name(trimmed(f)) {
                    Ok(FieldEffect::AddTag(TagAuxV { name: trimmed(f), public: false }))
                } else {
                    Err(FieldErr::Tag)
                }
            },
        }
    }
}

/// Fold one effect into the accumulated tags and options; a later field
/// overrides an earlier one.
pub open spec fn apply_effect(st: (Set<TagAuxV>, OptionsV), e: FieldEffect) -> (
    Set<TagAuxV>,
    OptionsV,
) {
    match e {
        FieldEffect::Skip => st,
        FieldEffect::NoStop => (st.0, OptionsV { no_stop: true, ..st.1 }),
        FieldEffect::LogDefault => (st.0, OptionsV { log: Some(Log { name: false }), ..st.1 }),
        FieldEffect::LogName => (st.0, OptionsV { log: Some(Log { name: true }), ..st.1 }),
        FieldEffect::AddTag(t) => (st.0.insert(t), st.1),
        FieldEffect::Points(n) => (st.0, OptionsV { max_points: Some(n), ..st.1 }),
        FieldEffect::Age(a) => (st.0, OptionsV { max_point_age_us: Some(a), ..st.1 }),
        FieldEffect::Name(n) => (st.0, OptionsV { name: Some(n), ..st.1 }),
    }
}

/// Fold a sequence of fields, stopping at the first failing one.
pub open spec fn run_fields(st: (Set<TagAuxV>, OptionsV), fields: Seq<Seq<char>>) -> Result<
    (Set<TagAuxV>, OptionsV),
    FieldErr,
>
    decreases fields.len(),
{
    if fields.len() == 0 {
        Ok(st)
    } else {
        match field_effect(fields[0]) {
            Result::Err(k) => Err(k),
            Result::Ok(e) => run_fields(apply_effect(st, e), fields.drop_first()),
        }
    }
}

/// What a present share-id string parses to.
pub open spec fn parse_share_id_spec(s: Seq<char>) -> Result<(Set<TagAuxV>, OptionsV), FieldErr> {
    run_fields((Set::empty(), OptionsV::init()), split_commas(strip_ws(s)))
}

/// The fields with the first one grown by a prefix.
pub open spec fn prepend_first(c: Seq<char>, fs: Seq<Seq<char>>) -> Seq<Seq<char>>
    recommends
        fs.len() >= 1,
{
    seq![c + fs[0]] + fs.drop_first()
}

/// A visibility-qualified tag in canonical form: `pub:name` or `priv:name`.
pub open spec fn render_tag_aux(t: TagAuxV) -> Seq<char> {
    (if t.public {
        "pub:"@
    } else {
        "priv:"@
    }) + t.name
}

/// The canonical share id of a set of tags: the rendered tags joined by
/// commas, in the given order.
pub open spec fn join_fields(ts: Seq<TagAuxV>) -> Seq<char>
    decreases ts.len(),
{
    if ts.len() == 0 {
        Seq::empty()
    } else if ts.len() == 1 {
        render_tag_aux(ts[0])
    } else {
        render_tag_aux(ts[0]) + seq![','] + join_fields(ts.drop_first())
    }
}

/// Whether the characters spell the same string.
fn chars_eq_str(v: &Vec<char>, s: &str) -> (r: bool)
    ensures
        r == (v@ == s@),
{
    let sc = string_chars(s);
    let n = v.len();
    if n != sc.len() {
        proof {
            assert(v@ != s@);
        }
        return false;
    }
    let mut i: usize = 0;
    while i < n
        invariant
            0 <= i <= n,
            n == v@.len(),
            n == sc@.len(),
            sc@ == s@,
            forall|k: int| 0 <= k < i ==> v@[k] == s@[k],
        decreases n - i,
    {
        if v[i] != sc[i] {
            proof {
                assert(v@[i as int] != s@[i as int]);
            }
            return false;
        }
        i = i + 1;
    }
    proof {
        assert(v@ =~= s@);
    }
    true
}

/// A field's first colon sits at `ci`.
pub(crate) proof fn lemma_split_colon_at(f: Seq<char>, ci: int)
    requires
        0 <= ci < f.len(),
        forall|k: int| 0 <= k < ci ==> f[k] != ':',
        f[ci] == ':',
    ensures
        split_colon(f) == Some((f.subrange(0, ci), f.subrange(ci + 1, f.len() as int))),
    decreases ci,
{
    if ci == 0 {
        assert(f.subrange(0, 0) =~= Seq::<char>::empty());
        assert(f.subrange(1, f.len() as int) =~= f.drop_first());
    } else {
        let t = f.drop_first();
        lemma_split_colon_at(t, ci - 1);
        assert(seq![f[0]] + t.subrange(0, ci - 1) =~= f.subrange(0, ci));
        assert(t.subrange(ci, t.len() as int) =~= f.subrange(ci + 1, f.len() as int));
    }
}

/// A field without a colon splits to nothing.
pub(crate) proof fn lemma_split_colon_none(f: Seq<char>)
    requires
        forall|k: int| 0 <= k < f.len() ==> f[k] != ':',
    ensures
        split_colon(f) is None,
    decreases f.len(),
{
    if f.len() > 0 {
        lemma_split_colon_none(f.drop_first());
    }
}

/// Carry out one field on the accumulated tags and options.
fn process_field(tags: &mut TagsAux, opts: &mut Options, field: &Vec<char>) -> (r: Result<
    (),
    ShareIdError,
>)
    ensures
        match field_effect(field@) {
            Result::Ok(e) => r is Ok && (final(tags)@, final(opts)@) == apply_effect(
                (old(tags)@, old(opts)@),
                e,
            ),
            Result::Err(k) => {
                &&& r matches Err(x) && err_kind(x) == k
                &&& final(tags)@ == old(tags)@
                &&& final(opts)@ == old(opts)@
            },
        },
{
    let n = field.len();
    if n == 0 {
        return Ok(());
    }
    // find the first colon
    let mut ci: usize = 0;
    loop
        invariant
            0 <= ci <= n,
            n == field@.len(),
            forall|k: int| 0 <= k < ci ==> field@[k] != ':',
        ensures
            0 <= ci <= n,
            forall|k: int| 0 <= k < ci ==> field@[k] != ':',
            ci < n ==> field@[ci as int] == ':',
            ci == n ==> forall|k: int| 0 <= k < n ==> field@[k] != ':',
        decreases n - ci,
    {
        if ci >= n {
            break;
        }
        if field[ci] == ':' {
            break;
        }
        ci = ci + 1;
    }
    if ci < n {
        proof {
            lemma_split_colon_at(field@, ci as int);
        }
        let mut k_vec: Vec<char> = Vec::new();
        let mut a: usize = 0;
        while a < ci
            invariant
                0 <= a <= ci <= n,
                n == field@.len(),
                k_vec@ == field@.subrange(0, a as int),
            decreases ci - a,
        {
            k_vec.push(field[a]);
            proof {
                assert(k_vec@ =~= field@.subrange(0, a + 1));
            }
            a = a + 1;
        }
        let mut v_vec: Vec<char> = Vec::new();
        let mut b: usize = ci + 1;
        while b < n
            invariant
                ci + 1 <= b <= n,
                n == field@.len(),
                v_vec@ == field@.subrange(ci + 1, b as int),
            decreases n - b,
        {
            v_vec.push(field[b]);
            proof {
                assert(v_vec@ =~= field@.subrange(ci + 1, b + 1));
            }
            b = b + 1;
        }
        if chars_eq_str(&k_vec, "pub") || chars_eq_str(&k_vec, "public") {
            let vs = chars_to_string(&v_vec);
            match TagAux::new(vs.as_str(), TagVisibility::Public) {
                Ok(t) => {
                    tags.insert(t);
                    Ok(())
                },
                Err(e) => Err(ShareIdError::Tag(e)),
            }
        } else if chars_eq_str(&k_vec, "priv") || chars_eq_str(&k_vec, "private") {
            let vs = chars_to_string(&v_vec);
            match TagAux::new(vs.as_str(), TagVisibility::Private) {
                Ok(t) => {
                    tags.insert(t);
                    Ok(())
                },
                Err(e) => Err(ShareIdError::Tag(e)),
            }
        } else if chars_eq_str(&k_vec, "points") {
            match crate::numbers::parse_usize_chars(&v_vec) {
                Ok(p) => {
                    opts.max_points = Some(p);
                    Ok(())
                },
                Err(()) => Err(ShareIdError::Points),
            }
        } else if chars_eq_str(&k_vec, "expire") {
            match crate::numbers::parse_duration_chars(&v_vec) {
                Ok(us) => {
                    opts.max_point_age_us = Some(us);
                    Ok(())
                },
                Err(()) => Err(ShareIdError::Expire),
            }
        } else if chars_eq_str(&k_vec, "name") {
            let vs = chars_to_string(&v_vec);
            opts.name = Some(vs);
            Ok(())
        } else if chars_eq_str(&k_vec, "log") {
            if chars_eq_str(&v_vec, "name") {
                opts.log = Some(Log { name: true });
                Ok(())
            } else {
                Err(ShareIdError::LogValue)
            }
        } else {
            Err(ShareIdError::Keyword)
        }
    } else {
        proof {
            lemma_split_colon_none(field@);
        }
        if chars_eq_str(field, "nostop") {
            opts.no_stop = true;
            Ok(())
        } else if chars_eq_str(field, "log") {
            opts.log = Some(Log { name: false });
            Ok(())
        } else {
            let fs = chars_to_string(field);
            match TagAux::new(fs.as_str(), TagVisibility::Private) {
                Ok(t) => {
                    tags.insert(t);
                    Ok(())
                },
                Err(e) => Err(ShareIdError::Tag(e)),
            }
        }
    }
}

impl TagsAux {
    /// Parse a share id into its tags and options.  An absent share id
    /// yields one freshly generated private tag and default options; a
    /// present one is parsed by the grammar, and its first offending field
    /// decides the error.
    pub fn parse_share_id(share_id: &Option<String>) -> (r: Result<
        (TagsAux, Options),
        ShareIdError,
    >)
        ensures
            share_id matches Some(s) ==> match r {
                Result::Ok(p) => {
                    &&& parse_share_id_spec(s@) is Ok
                    &&& p.0@ == parse_share_id_spec(s@)->Ok_0.0
                    &&& p.1@ == parse_share_id_spec(s@)->Ok_0.1
                },
                Result::Err(e) => parse_share_id_spec(s@) == Result::<
                    (Set<TagAuxV>, OptionsV),
                    FieldErr,
                >::Err(err_kind(e)),
            },
            share_id is None ==> (r matches Ok(p) && {
                &&& p.0@.len() == 1
                &&& forall|t: TagAuxV|
                    p.0@.contains(t) ==> !t.public && valid_tag_name(t.name) && t.name.len() == 16
                &&& p.1@ == OptionsV::init()
            }),
    {
        match share_id {
            None => {
                let id = fresh_id();
                let ghost idv = id@;
                let tag = Tag(id);
                proof {
                    assert(valid_tag_name(tag@));
                }
                let mut tags = TagsAux::new();
                tags.insert(TagAux { name: tag, visibility: TagVisibility::Private });
                proof {
                    assert(tags@ =~= Set::<TagAuxV>::empty().insert(
                        TagAuxV { name: idv, public: false },
                    ));
                    assert(tags@.len() == 1);
                }
                Ok((tags, Options::default()))
            },
            Some(s) => {
                let chars = string_chars(s.as_str());
                let cn = chars.len();
                let ghost sv = s@;

                // strip whitespace
                let mut sw: Vec<char> = Vec::new();
                let mut i: usize = 0;
                proof {
                    assert(sv.skip(0) =~= sv);
                    assert(Seq::<char>::empty() + strip_ws(sv) =~= strip_ws(sv));
                }
                while i < cn
                    invariant
                        0 <= i <= cn,
                        cn == chars@.len(),
                        chars@ == sv,
                        strip_ws(sv) == sw@ + strip_ws(sv.skip(i as int)),
                    decreases cn - i,
                {
                    let c = chars[i];
                    proof {
                        assert(sv.skip(i as int).drop_first() =~= sv.skip(i + 1));
                        assert(sv.skip(i as int)[0] == sv[i as int]);
                    }
                    if !crate::shims::is_whitespace_char(c) {
                        sw.push(c);
                        proof {
                            assert(sw@ + strip_ws(sv.skip(i + 1)) =~= (sw@.drop_last()
                                + (seq![sv[i as int]] + strip_ws(sv.skip(i + 1)))));
                        }
                    }
                    i = i + 1;
                }
                proof {
                    assert(sv.skip(cn as int) =~= Seq::<char>::empty());
                    assert(sw@ + strip_ws(Seq::<char>::empty()) =~= sw@);
                    assert(sw@ == strip_ws(sv));
                }

                let ghost t_fields = split_commas(sw@);
                let ghost st0 = (Set::<TagAuxV>::empty(), OptionsV::init());

                let mut tags = TagsAux::new();
                let mut opts = Options::default();
                let mut cur: Vec<char> = Vec::new();
                let ghost mut completed: int = 0;

                let swn = sw.len();
                let mut j: usize = 0;
                proof {
                    lemma_split_commas_nonempty(sw@);
                    assert(sw@.skip(0) =~= sw@);
                    assert(t_fields.skip(0) =~= t_fields);
                    assert(cur@ + t_fields[0] =~= t_fields[0]);
                    assert(prepend_first(cur@, t_fields) =~= t_fields);
                }
                while j < swn
                    invariant
                        share_id matches Some(s2) && s2@ == sv,
                        st0 == (Set::<TagAuxV>::empty(), OptionsV::init()),
                        0 <= j <= swn,
                        swn == sw@.len(),
                        sw@ == strip_ws(sv),
                        t_fields == split_commas(sw@),
                        0 <= completed,
                        completed + split_commas(sw@.skip(j as int)).len() == t_fields.len(),
                        t_fields.skip(completed) == prepend_first(
                            cur@,
                            split_commas(sw@.skip(j as int)),
                        ),
                        run_fields(st0, t_fields) == run_fields(
                            (tags@, opts@),
                            t_fields.skip(completed),
                        ),
                    decreases swn - j,
                {
                    let c = sw[j];
                    proof {
                        lemma_split_commas_nonempty(sw@.skip(j + 1));
                        assert(sw@.skip(j as int).drop_first() =~= sw@.skip(j + 1));
                        assert(sw@.skip(j as int)[0] == sw@[j as int]);
                    }
                    if c == ',' {
                        let ghost fs_next = split_commas(sw@.skip(j + 1));
                        proof {
                            assert(split_commas(sw@.skip(j as int)) =~= seq![
                                Seq::<char>::empty(),
                            ] + fs_next);
                            let fs_j = split_commas(sw@.skip(j as int));
                            assert(cur@ + fs_j[0] =~= cur@);
                            assert(t_fields.skip(completed)[0] == cur@);
                            assert(t_fields.skip(completed).drop_first() =~= fs_next);
                        }
                        let ghost st_pre = (tags@, opts@);
                        match process_field(&mut tags, &mut opts, &cur) {
                            Ok(()) => {},
                            Err(e) => {
                                proof {
                                    assert(run_fields(st0, t_fields) == Result::<
                                        (Set<TagAuxV>, OptionsV),
                                        FieldErr,
                                    >::Err(err_kind(e)));
                                }
                                return Err(e);
                            },
                        }
                        proof {
                            assert(run_fields(st_pre, t_fields.skip(completed)) == run_fields(
                                (tags@, opts@),
                                t_fields.skip(completed).drop_first(),
                            ));
                        }
                        cur = Vec::new();
                        proof {
                            completed = completed + 1;
                            assert(t_fields.skip(completed) =~= fs_next);
                            assert(prepend_first(cur@, fs_next) =~= fs_next);
                        }
                    } else {
                        let ghost fs_next = split_commas(sw@.skip(j + 1));
                        let ghost cur_old = cur@;
                        proof {
                            lemma_split_commas_nonempty(sw@.skip(j + 1));
                            assert(split_commas(sw@.skip(j as int)) =~= seq![
                                seq![sw@[j as int]] + fs_next[0],
                            ] + fs_next.drop_first());
                        }
                        cur.push(c);
                        proof {
                            let fs_j = split_commas(sw@.skip(j as int));
                            assert(fs_j.drop_first() =~= fs_next.drop_first());
                            assert(cur@ + fs_next[0] =~= cur_old + fs_j[0]);
                            assert(prepend_first(cur_old, fs_j)[0] == prepend_first(
                                cur@,
                                fs_next,
                            )[0]);
                            assert(prepend_first(cur@, fs_next) =~= prepend_first(
                                cur_old,
                                fs_j,
                            ));
                            assert(prepend_first(cur@, fs_next) =~= t_fields.skip(completed));
                        }
                    }
                    j = j + 1;
                }
                proof {
                    assert(sw@.skip(swn as int) =~= Seq::<char>::empty());
                    assert(split_commas(Seq::<char>::empty()) =~= seq![Seq::<char>::empty()]);
                    assert(t_fields.skip(completed) =~= seq![cur@]);
                }
                let ghost st_pre = (tags@, opts@);
                match process_field(&mut tags, &mut opts, &cur) {
                    Ok(()) => {},
                    Err(e) => {
                        proof {
                            assert(run_fields(st0, t_fields) == Result::<
                                (Set<TagAuxV>, OptionsV),
                                FieldErr,
                            >::Err(err_kind(e)));
                        }
                        return Err(e);
                    },
                }
                proof {
                    assert(t_fields.skip(completed)[0] == cur@);
                    assert(t_fields.skip(completed).drop_first() =~= Seq::<Seq<char>>::empty());
                    assert(run_fields(st_pre, t_fields.skip(completed)) == run_fields(
                        (tags@, opts@),
                        t_fields.skip(completed).drop_first(),
                    ));
                    assert(run_fields(st0, t_fields) == Result::<
                        (Set<TagAuxV>, OptionsV),
                        FieldErr,
                    >::Ok((tags@, opts@)));
                }
                Ok((tags, opts))
            },
        }
    }
}

/// The canonical-form characters of a valid tag carry no comma, no
/// whitespace and, past the keyword's colon, no colon.
proof fn lemma_render_chars(t: TagAuxV)
    requires
        valid_tag_name(t.name),
    ensures
        forall|i: int|
            0 <= i < render_tag_aux(t).len() ==> #[trigger] render_tag_aux(t)[i] != ','
                && !whitespace_char(render_tag_aux(t)[i]),
        render_tag_aux(t).len() > 0,
{
    reveal_strlit("pub:");
    reveal_strlit("priv:");
    let r = render_tag_aux(t);
    let p = if t.public { "pub:"@ } else { "priv:"@ };
    assert forall|i: int| 0 <= i < r.len() implies #[trigger] r[i] != ',' && !whitespace_char(
        r[i],
    ) by {
        if i < p.len() {
            assert(r[i] == p[i]);
        } else {
            assert(r[i] == t.name[i - p.len()]);
            assert(crate::tags::tag_char(t.name[i - p.len()]));
        }
    }
}

/// No whitespace anywhere in a canonical share id.
proof fn lemma_join_fields_chars(ts: Seq<TagAuxV>)
    requires
        forall|k: int| 0 <= k < ts.len() ==> valid_tag_name(#[trigger] ts[k].name),
    ensures
        forall|i: int|
            0 <= i < join_fields(ts).len() ==> !whitespace_char(#[trigger] join_fields(ts)[i]),
    decreases ts.len(),
{
    if ts.len() == 0 {
    } else if ts.len() == 1 {
        lemma_render_chars(ts[0]);
    } else {
        lemma_render_chars(ts[0]);
        lemma_join_fields_chars(ts.drop_first());
        let r = render_tag_aux(ts[0]);
        let j = join_fields(ts);
        let rest = join_fields(ts.drop_first());
        assert forall|i: int| 0 <= i < j.len() implies !whitespace_char(#[trigger] j[i]) by {
            if i < r.len() {
                assert(j[i] == r[i]);
            } else if i == r.len() {
                assert(j[i] == ',');
            } else {
                assert(j[i] == rest[i - r.len() - 1]);
            }
        }
    }
}

/// A string without whitespace strips to itself.
proof fn lemma_strip_ws_id(s: Seq<char>)
    requires
        forall|i: int| 0 <= i < s.len() ==> !whitespace_char(#[trigger] s[i]),
    ensures
        strip_ws(s) == s,
    decreases s.len(),
{
    if s.len() > 0 {
        lemma_strip_ws_id(s.drop_first());
        assert(seq![s[0]] + s.drop_first() =~= s);
    }
}

/// A string without whitespace trims to itself.
proof fn lemma_trimmed_id(s: Seq<char>)
    requires
        forall|i: int| 0 <= i < s.len() ==> !whitespace_char(#[trigger] s[i]),
    ensures
        trimmed(s) == s,
{
    crate::tags::lemma_trim_of_clean(s);
}

/// A comma-free field followed by a comma and a rest splits into the field
/// and the rest's fields.
proof fn lemma_split_commas_glue(f: Seq<char>, t: Seq<char>)
    requires
        forall|i: int| 0 <= i < f.len() ==> #[trigger] f[i] != ',',
    ensures
        split_commas(f + seq![','] + t) == seq![f] + split_commas(t),
    decreases f.len(),
{
    let s = f + seq![','] + t;
    if f.len() == 0 {
        assert(s =~= seq![','] + t);
        assert(s[0] == ',');
        assert(s.drop_first() =~= t);
        assert(f =~= Seq::<char>::empty());
        assert(seq![Seq::<char>::empty()] + split_commas(t) =~= seq![f] + split_commas(t));
    } else {
        assert(s[0] == f[0]);
        assert(s[0] != ',');
        assert(s.drop_first() =~= f.drop_first() + seq![','] + t);
        lemma_split_commas_glue(f.drop_first(), t);
        let rest = split_commas(s.drop_first());
        assert(rest == seq![f.drop_first()] + split_commas(t));
        assert(rest[0] == f.drop_first());
        assert(seq![s[0]] + rest[0] =~= f);
        assert(rest.drop_first() =~= split_commas(t));
        assert(split_commas(s) =~= seq![f] + split_commas(t));
    }
}

/// A comma-free string is one whole field.
proof fn lemma_split_commas_single(f: Seq<char>)
    requires
        f.len() > 0,
        forall|i: int| 0 <= i < f.len() ==> #[trigger] f[i] != ',',
    ensures
        split_commas(f) == seq![f],
    decreases f.len(),
{
    if f.len() == 1 {
        assert(f[0] != ',');
        assert(f.drop_first() =~= Seq::<char>::empty());
        let rest = split_commas(f.drop_first());
        assert(rest == seq![Seq::<char>::empty()]);
        assert(rest[0] == Seq::<char>::empty());
        assert(seq![f[0]] + Seq::<char>::empty() =~= f);
        assert(rest.drop_first() =~= Seq::<Seq<char>>::empty());
        assert(split_commas(f) =~= seq![f]);
    } else {
        assert(f[0] != ',');
        assert(forall|i: int|
            0 <= i < f.drop_first().len() ==> #[trigger] f.drop_first()[i] != ',');
        lemma_split_commas_single(f.drop_first());
        let rest = split_commas(f.drop_first());
        assert(rest[0] == f.drop_first());
        assert(seq![f[0]] + f.drop_first() =~= f);
        assert(rest.drop_first() =~= Seq::<Seq<char>>::empty());
        assert(split_commas(f) =~= seq![f]);
    }
}

/// The canonical form of a valid tag reads back as exactly that tag.
proof fn lemma_render_effect(t: TagAuxV)
    requires
        valid_tag_name(t.name),
    ensures
        field_effect(render_tag_aux(t)) == Ok::<FieldEffect, FieldErr>(FieldEffect::AddTag(t)),
{
    reveal_strlit("pub:");
    reveal_strlit("priv:");
    reveal_strlit("pub");
    reveal_strlit("public");
    reveal_strlit("priv");
    reveal_strlit("private");
    reveal_strlit("points");
    reveal_strlit("expire");
    reveal_strlit("name");
    reveal_strlit("log");
    reveal_strlit("nostop");
    let r = render_tag_aux(t);
    let p = if t.public { "pub:"@ } else { "priv:"@ };
    let ci = p.len() - 1;
    assert forall|k: int| 0 <= k < ci implies r[k] != ':' by {
        assert(r[k] == p[k]);
    }
    assert(r[ci] == ':');
    assert forall|k: int| 0 <= k < t.name.len() implies #[trigger] t.name[k] != ':' by {
        assert(crate::tags::tag_char(t.name[k]));
    }
    lemma_split_colon_at(r, ci);
    let kv = split_colon(r)->Some_0;
    assert(kv.0 =~= (if t.public { "pub"@ } else { "priv"@ })) by {
        assert forall|k: int| 0 <= k < ci implies r.subrange(0, ci)[k] == p[k] by {}
    }
    assert(kv.1 =~= t.name);
    lemma_trimmed_id(t.name);
    if t.public {
        assert(kv.0 != "priv"@ && kv.0 != "private"@);
    } else {
        assert(kv.0 != "pub"@ && kv.0 != "public"@);
    }
}

proof fn lemma_set_head_insert<A>(s: Seq<A>)
    requires
        s.len() > 0,
    ensures
        s.to_set() == s.drop_first().to_set().insert(s[0]),
{
    let lhs = s.to_set();
    let rhs = s.drop_first().to_set().insert(s[0]);
    assert forall|x: A| lhs.contains(x) implies rhs.contains(x) by {
        let i = choose|i: int| 0 <= i < s.len() && s[i] == x;
        if i > 0 {
            assert(s.drop_first()[i - 1] == x);
            assert(s.drop_first().contains(x));
        }
    }
    assert forall|x: A| rhs.contains(x) implies lhs.contains(x) by {
        if x == s[0] {
            assert(s.contains(x));
        } else {
            let i = choose|i: int| 0 <= i < s.drop_first().len() && s.drop_first()[i] == x;
            assert(s[i + 1] == x);
            assert(s.contains(x));
        }
    }
    assert(lhs =~= rhs);
}

/// Running fields that each add one tag collects exactly those tags.
proof fn lemma_run_addtags(st: (Set<TagAuxV>, OptionsV), fields: Seq<Seq<char>>, tvs: Seq<TagAuxV>)
    requires
        fields.len() == tvs.len(),
        forall|i: int|
            0 <= i < fields.len() ==> field_effect(#[trigger] fields[i]) == Ok::<
                FieldEffect,
                FieldErr,
            >(FieldEffect::AddTag(tvs[i])),
    ensures
        run_fields(st, fields) == Ok::<(Set<TagAuxV>, OptionsV), FieldErr>(
            (st.0 + tvs.to_set(), st.1),
        ),
    decreases fields.len(),
{
    if fields.len() == 0 {
        assert(tvs.to_set() =~= Set::<TagAuxV>::empty());
        assert(st.0 + tvs.to_set() =~= st.0);
    } else {
        let st1 = (st.0.insert(tvs[0]), st.1);
        assert(forall|i: int|
            0 <= i < fields.drop_first().len() ==> field_effect(
                #[trigger] fields.drop_first()[i],
            ) == Ok::<FieldEffect, FieldErr>(FieldEffect::AddTag(tvs.drop_first()[i])));
        lemma_run_addtags(st1, fields.drop_first(), tvs.drop_first());
        lemma_set_head_insert(tvs);
        assert(st.0.insert(tvs[0]) + tvs.drop_first().to_set() =~= st.0 + tvs.to_set());
    }
}

/// Splitting the canonical share id of valid tags gives one field per tag.
proof fn lemma_split_join(ts: Seq<TagAuxV>)
    requires
        ts.len() > 0,
        forall|k: int| 0 <= k < ts.len() ==> valid_tag_name(#[trigger] ts[k].name),
    ensures
        split_commas(join_fields(ts)) == ts.map_values(|t: TagAuxV| render_tag_aux(t)),
    decreases ts.len(),
{
    lemma_render_chars(ts[0]);
    if ts.len() == 1 {
        lemma_split_commas_single(render_tag_aux(ts[0]));
        assert(split_commas(join_fields(ts)) =~= ts.map_values(|t: TagAuxV| render_tag_aux(t)));
    } else {
        lemma_split_join(ts.drop_first());
        assert(join_fields(ts) =~= render_tag_aux(ts[0]) + seq![','] + join_fields(
            ts.drop_first(),
        ));
        lemma_split_commas_glue(render_tag_aux(ts[0]), join_fields(ts.drop_first()));
        assert(split_commas(join_fields(ts)) =~= seq![render_tag_aux(ts[0])] + split_commas(
            join_fields(ts.drop_first()),
        ));
        assert(split_commas(join_fields(ts)) =~= ts.map_values(|t: TagAuxV| render_tag_aux(t)));
    }
}

impl TagAux {
    /// The canonical form of this tag: `pub:name` or `priv:name`.
    pub fn render(&self) -> (r: String)
        ensures
            r@ == render_tag_aux(self@),
    {
        let mut out: String = if self.is_public() {
            String::from_str("pub:")
        } else {
            String::from_str("priv:")
        };
        out.append(self.name.0.as_str());
        out
    }
}

impl TagsAux {
    /// The canonical share id of these tags: `pub:` and `priv:` fields
    /// joined by commas.  Parsing it back yields exactly these tags and
    /// default options, so a share id survives the round trip.
    pub fn canonical_share_id(&self) -> (r: String)
        requires
            forall|t: TagAuxV| self@.contains(t) ==> valid_tag_name(t.name),
        ensures
            parse_share_id_spec(r@) == Ok::<(Set<TagAuxV>, OptionsV), FieldErr>(
                (self@, OptionsV::init()),
            ),
    {
        let items = self.as_vec();
        let n = items.len();
        let ghost pv = items@.map_values(|t: TagAux| t@);
        proof {
            assert(forall|k: int| 0 <= k < pv.len() ==> pv.to_set().contains(#[trigger] pv[k]));
        }
        let mut out = String::new();
        let mut i: usize = 0;
        while i < n
            invariant
                0 <= i <= n,
                n == items@.len(),
                pv == items@.map_values(|t: TagAux| t@),
                pv.to_set() == self@,
                forall|k: int| 0 <= k < pv.len() ==> valid_tag_name(#[trigger] pv[k].name),
                out@ == join_fields(pv.subrange(0, i as int)),
            decreases n - i,
        {
            if i > 0 {
                out.append(",");
            }
            let piece = items[i].render();
            out.append(piece.as_str());
            proof {
                reveal_strlit(",");
                assert(","@ =~= seq![',']);
                assert(pv.subrange(0, i + 1) =~= pv.subrange(0, i as int).push(pv[i as int]));
                lemma_join_snoc(pv.subrange(0, i as int), pv[i as int]);
                if i == 0 {
                    assert(pv.subrange(0, 0) =~= Seq::<TagAuxV>::empty());
                    assert(out@ =~= join_fields(pv.subrange(0, 1)));
                } else {
                    assert(out@ =~= join_fields(pv.subrange(0, i + 1)));
                }
            }
            i = i + 1;
        }
        proof {
            assert(pv.subrange(0, n as int) =~= pv);
            let ghost st0 = (Set::<TagAuxV>::empty(), OptionsV::init());
            if n == 0 {
                assert(out@ =~= Seq::<char>::empty());
                lemma_strip_ws_id(out@);
                assert(split_commas(out@) =~= seq![Seq::<char>::empty()]);
                assert(field_effect(Seq::<char>::empty()) == Ok::<FieldEffect, FieldErr>(
                    FieldEffect::Skip,
                ));
                assert(seq![Seq::<char>::empty()].drop_first() =~= Seq::<Seq<char>>::empty());
                assert(run_fields(st0, Seq::<Seq<char>>::empty()) == Ok::<
                    (Set<TagAuxV>, OptionsV),
                    FieldErr,
                >(st0));
                assert(run_fields(st0, split_commas(out@)) == Ok::<
                    (Set<TagAuxV>, OptionsV),
                    FieldErr,
                >((st0.0, st0.1)));
                assert(pv.to_set() =~= Set::<TagAuxV>::empty());
            } else {
                lemma_join_fields_chars(pv);
                lemma_strip_ws_id(out@);
                lemma_split_join(pv);
                let fields = pv.map_values(|t: TagAuxV| render_tag_aux(t));
                assert forall|k: int| 0 <= k < fields.len() implies field_effect(
                    #[trigger] fields[k],
                ) == Ok::<FieldEffect, FieldErr>(FieldEffect::AddTag(pv[k])) by {
                    lemma_render_effect(pv[k]);
                }
                lemma_run_addtags(st0, fields, pv);
                assert(st0.0 + pv.to_set() =~= self@);
            }
        }
        out
    }
}

/// Joining one more tag appends a comma (past the first) and its
/// rendering.
proof fn lemma_join_snoc(ts: Seq<TagAuxV>, t: TagAuxV)
    ensures
        ts.len() == 0 ==> join_fields(ts.push(t)) == join_fields(ts) + render_tag_aux(t),
        ts.len() > 0 ==> join_fields(ts.push(t)) == join_fields(ts) + seq![','] + render_tag_aux(
            t,
        ),
    decreases ts.len(),
{
    let u = ts.push(t);
    if ts.len() == 0 {
        assert(u.len() == 1);
        assert(u[0] == t);
        assert(Seq::<char>::empty() + render_tag_aux(t) =~= render_tag_aux(t));
    } else {
        lemma_join_snoc(ts.drop_first(), t);
        assert(u.drop_first() =~= ts.drop_first().push(t));
        assert(u[0] == ts[0]);
        if ts.len() == 1 {
            assert(ts.drop_first().len() == 0);
            assert(join_fields(u) == render_tag_aux(u[0]) + seq![','] + join_fields(
                u.drop_first(),
            ));
            assert(join_fields(u.drop_first()) == join_fields(ts.drop_first()) + render_tag_aux(
                t,
            ));
            assert(join_fields(ts.drop_first()) =~= Seq::<char>::empty());
            assert(join_fields(u.drop_first()) =~= render_tag_aux(t));
            assert(join_fields(ts) == render_tag_aux(ts[0]));
            assert(join_fields(u) =~= join_fields(ts) + seq![','] + render_tag_aux(t));
        } else {
            assert(join_fields(u) == render_tag_aux(u[0]) + seq![','] + join_fields(
                u.drop_first(),
            ));
            assert(join_fields(ts) == render_tag_aux(ts[0]) + seq![','] + join_fields(
                ts.drop_first(),
            ));
            assert(join_fields(u) =~= join_fields(ts) + seq![','] + render_tag_aux(t));
        }
    }
}

} // verus!
