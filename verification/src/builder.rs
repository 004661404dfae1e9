//! Public builder API: `Armor::builder()`, configure, `build()` (runs the
//! pipeline), then `render()` (final framing wrap).

use vstd::prelude::*;
use vstd::string::StringSliceAdditionalSpecFns;
use crate::armored::{Armored, ArmoredView};
use crate::catalog::str_views;
use crate::config::{default_config, ArmorConfig, Policy};
use crate::decider::{decide, rejects};
use crate::error::{ArmorError, ErrorView};
use crate::finding::{append_findings, finding_views, Finding, FindingView};
use crate::layers::encoding::{encoding_candidates, encoding_detect, encoding_layer};
use crate::layers::fence::{fence_layer, fence_sanitize, marker_free};
use crate::layers::patterns::{pattern_detect, pattern_hits, pattern_layer};
use crate::layers::unicode::{unicode_layer, unicode_normalize};
use crate::util::{byte_len, bytes_of};
use std::borrow::Cow;
use vstd::utf8::decode_utf8;
use vstd::string::StringExecFns;

verus! {

broadcast use vstd::utf8::group_utf8_lib;

/// Entry point of the API.
pub struct Armor;

impl Armor {
    /// A builder with empty prompts, no extra patterns and the default configuration.
    pub fn builder() -> (b: ArmorBuilder)
        ensures
            b@ == (BuilderView {
                system: seq![],
                user: seq![],
                extra: seq![],
                config: default_config(),
            }),
    {
        ArmorBuilder::default()
    }
}

/// Collects the prompts, extra patterns and configuration of one run.
#[derive(Debug, Clone)]
pub struct ArmorBuilder {
    system: String,
    user: String,
    extra_patterns: &'static [&'static str],
    config: ArmorConfig,
}

/// Mathematical model of an [`ArmorBuilder`].
pub struct BuilderView {
    pub system: Seq<char>,
    pub user: Seq<char>,
    pub extra: Seq<Seq<char>>,
    pub config: ArmorConfig,
}

impl View for ArmorBuilder {
    type V = BuilderView;

    closed spec fn view(&self) -> BuilderView {
        BuilderView {
            system: self.system@,
            user: self.user@,
            extra: str_views(self.extra_patterns@),
            config: self.config,
        }
    }
}

impl Default for ArmorBuilder {
    fn default() -> (b: Self)
        ensures
            b@ == (BuilderView {
                system: seq![],
                user: seq![],
                extra: seq![],
                config: default_config(),
            }),
    {
        let none: &'static [&'static str] = &[];
        let b = ArmorBuilder {
            system: String::new(),
            user: String::new(),
            extra_patterns: none,
            config: ArmorConfig::default(),
        };
        proof {
            assert(str_views(none@) =~= Seq::<Seq<char>>::empty());
        }
        b
    }
}

/// The user pipeline: unicode, fence, pattern and encoding layers in turn;
/// the final text and the findings of all four, in order.
pub open spec fn user_pipeline(user: Seq<char>, extra: Seq<Seq<char>>, c: ArmorConfig) -> (Seq<char>, Seq<FindingView>) {
    let u = unicode_layer(user);
    let f = fence_layer(u.0, c.fence_policy);
    let p = pattern_layer(f.0, extra, c.pattern_policy);
    let e = encoding_layer(p.0, extra, c.encoding_policy);
    (e.0, u.1 + f.1 + p.1 + e.1)
}

/// What `build` returns for a builder: an empty user prompt and one above
/// the byte cap are refused up front; otherwise the system prompt goes
/// through the unicode layer, the user prompt through the whole pipeline,
/// and the decision accepts or refuses the result.
pub open spec fn build_outcome(b: BuilderView) -> Result<ArmoredView, ErrorView> {
    let n = bytes_of(b.user).len();
    if b.user.len() == 0 {
        Err(ErrorView::EmptyInput)
    } else if n > b.config.max_input_bytes {
        Err(ErrorView::InputTooLarge(n as usize, b.config.max_input_bytes))
    } else {
        let sys = unicode_layer(b.system);
        let usr = user_pipeline(b.user, b.extra, b.config);
        let findings = sys.1 + usr.1;
        let s = bytes_of(usr.0).len();
        if rejects(n as int, s as int, findings, b.config) {
            Err(ErrorView::Unsalvageable(findings, n as usize, s as usize))
        } else {
            Ok(ArmoredView { system: sys.0, user: usr.0, findings, framing: b.config.framing })
        }
    }
}

/// The text of a layer's output as an owned string.
fn owned_text(c: Cow<'_, str>) -> (r: String)
    ensures
        r@ == c@,
{
    match c {
        Cow::Borrowed(b) => String::from_str(b),
        Cow::Owned(o) => o,
    }
}

/// The unicode layer on `t`, its text owned.
fn run_unicode(t: &str) -> (r: (String, Vec<Finding>))
    ensures
        r.0@ == unicode_layer(t@).0,
        finding_views(r.1@) == unicode_layer(t@).1,
{
    let (text, fs) = unicode_normalize(t);
    (owned_text(text), fs)
}

/// The fence layer on `t`, its text owned.
fn run_fence(t: &str, policy: Policy) -> (r: (String, Vec<Finding>))
    ensures
        r.0@ == fence_layer(t@, policy).0,
        finding_views(r.1@) == fence_layer(t@, policy).1,
        policy != Policy::WarnOnly ==> marker_free(bytes_of(r.0@)),
{
    let (text, fs) = fence_sanitize(t, policy);
    let out = owned_text(text);
    proof {
        assert(decode_utf8(bytes_of(out@)) == out@);
    }
    (out, fs)
}

/// The pattern layer on `t`, its text owned.
fn run_patterns(t: &str, extra: &[&str], policy: Policy) -> (r: (String, Vec<Finding>))
    ensures
        r.0@ == pattern_layer(t@, str_views(extra@), policy).0,
        finding_views(r.1@) == pattern_layer(t@, str_views(extra@), policy).1,
        marker_free(bytes_of(t@)) ==> marker_free(bytes_of(r.0@)),
{
    let (text, fs) = pattern_detect(t, extra, policy);
    let out = owned_text(text);
    proof {
        assert(decode_utf8(bytes_of(out@)) == out@);
        if pattern_hits(t@, str_views(extra@)).len() == 0 {
            assert(finding_views(fs@) =~= Seq::<FindingView>::empty());
        }
    }
    (out, fs)
}

/// The encoding layer on `t`, its text owned.
fn run_encoding(t: &str, extra: &[&str], policy: Policy) -> (r: (String, Vec<Finding>))
    ensures
        r.0@ == encoding_layer(t@, str_views(extra@), policy).0,
        finding_views(r.1@) == encoding_layer(t@, str_views(extra@), policy).1,
        marker_free(bytes_of(t@)) ==> marker_free(bytes_of(r.0@)),
{
    let (text, fs) = encoding_detect(t, extra, policy);
    let out = owned_text(text);
    proof {
        assert(decode_utf8(bytes_of(out@)) == out@);
        if encoding_candidates(t.spec_bytes()).len() == 0 {
            assert(finding_views(fs@) =~= Seq::<FindingView>::empty());
        }
    }
    (out, fs)
}

/// The four layers of the user pipeline on `user`, in order.
fn run_user_pipeline(user: &str, extra: &[&str], config: &ArmorConfig) -> (r: (String, Vec<Finding>))
    ensures
        r.0@ == user_pipeline(user@, str_views(extra@), *config).0,
        finding_views(r.1@) == user_pipeline(user@, str_views(extra@), *config).1,
        config.fence_policy != Policy::WarnOnly ==> marker_free(bytes_of(r.0@)),
{
    let (after_unicode, mut findings) = run_unicode(user);
    let (after_fence, fs) = run_fence(after_unicode.as_str(), config.fence_policy);
    append_findings(&mut findings, fs);
    let (after_patterns, fs) = run_patterns(after_fence.as_str(), extra, config.pattern_policy);
    append_findings(&mut findings, fs);
    let (after_encoding, fs) = run_encoding(after_patterns.as_str(), extra, config.encoding_policy);
    append_findings(&mut findings, fs);
    (after_encoding, findings)
}

/// Text that a prompt can be set from: a string slice or an owned string.
pub trait PromptText {
    /// The characters of the text.
    spec fn text(&self) -> Seq<char>;

    /// The text as an owned string.
    fn into_prompt(self) -> (r: String)
        ensures
            r@ == self.text(),
    ;
}

impl<'a> PromptText for &'a str {
    open spec fn text(&self) -> Seq<char> {
        (*self)@
    }

    fn into_prompt(self) -> (r: String) {
        String::from_str(self)
    }
}

impl PromptText for String {
    open spec fn text(&self) -> Seq<char> {
        self@
    }

    fn into_prompt(self) -> (r: String) {
        self
    }
}

impl ArmorBuilder {
    /// Sets the system prompt.
    pub fn system<S: PromptText>(self, s: S) -> (r: Self)
        ensures
            r@ == (BuilderView { system: s.text(), ..self@ }),
    {
        let mut b = self;
        b.system = s.into_prompt();
        b
    }

    /// Sets the user prompt.
    pub fn user<S: PromptText>(self, s: S) -> (r: Self)
        ensures
            r@ == (BuilderView { user: s.text(), ..self@ }),
    {
        let mut b = self;
        b.user = s.into_prompt();
        b
    }

    /// Sets the patterns searched for in addition to the default catalog.
    pub fn extra_patterns(self, patterns: &'static [&'static str]) -> (r: Self)
        ensures
            r@ == (BuilderView { extra: str_views(patterns@), ..self@ }),
    {
        let mut b = self;
        b.extra_patterns = patterns;
        b
    }

    /// Sets the configuration.
    pub fn config(self, c: ArmorConfig) -> (r: Self)
        ensures
            r@ == (BuilderView { config: c, ..self@ }),
    {
        let mut b = self;
        b.config = c;
        b
    }

    /// Validate the input and run the pipeline (see [`build_outcome`]).
    /// Unless the fence policy is `WarnOnly`, the user text of an accepted
    /// run contains no fence marker.
    pub fn build(self) -> (res: Result<Armored, ArmorError>)
        ensures
            match res {
                Ok(a) => build_outcome(self@) == Ok::<ArmoredView, ErrorView>(a@),
                Err(e) => build_outcome(self@) == Err::<ArmoredView, ErrorView>(e@),
            },
            self@.config.fence_policy != Policy::WarnOnly ==> (res matches Ok(a) ==> marker_free(
                bytes_of(a.user_sanitized@),
            )),
    {
        let user = self.user.as_str();
        if user.is_empty() {
            return Err(ArmorError::EmptyInput);
        }
        let original_user_len = byte_len(user);
        if original_user_len > self.config.max_input_bytes {
            return Err(ArmorError::InputTooLarge { actual: original_user_len, limit: self.config.max_input_bytes });
        }
        let (system_sanitized, mut findings) = run_unicode(self.system.as_str());
        let (user_sanitized, user_findings) = run_user_pipeline(user, self.extra_patterns, &self.config);
        append_findings(&mut findings, user_findings);
        let sanitized_len = byte_len(user_sanitized.as_str());
        proof {
            assert(finding_views(findings@) =~= build_findings(self@));
        }
        match decide(original_user_len, sanitized_len, findings.as_slice(), &self.config) {
            Err(e) => Err(e),
            Ok(()) => Ok(Armored { system_sanitized, user_sanitized, findings, framing: self.config.framing }),
        }
    }
}

/// The findings of a run that passed the up-front checks.
pub open spec fn build_findings(b: BuilderView) -> Seq<FindingView> {
    unicode_layer(b.system).1 + user_pipeline(b.user, b.extra, b.config).1
}

} // verus!
