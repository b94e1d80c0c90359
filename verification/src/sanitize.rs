//! Regex-based redaction with per-pattern match digests, and shebang
//! validation.
//!
//! Pattern matching and replacement are delegated to the regex crate behind
//! trusted wrappers; everything that is built from the matches — digests,
//! log lines, the fold across patterns — is verified.

use vstd::prelude::*;
use crate::crypto::{b3, blake3_hash};
use crate::numfmt::{dec_of, hex_of, push_dec, push_hex};
use crate::planner::PlannedChunk;
use crate::strutil::{chars_to_string, push_str_chars, str_to_chars, string_to_bytes};
use vstd::utf8::encode_utf8;
use vstd::string::StringExecFns;

verus! {

/// Whether a pattern compiles as a regular expression.
pub uninterp spec fn rx_valid(p: Seq<char>) -> bool;

/// The non-overlapping matches of a pattern in a text, in order.
pub uninterp spec fn rx_matches(p: Seq<char>, t: Seq<char>) -> Seq<Seq<char>>;

/// The text with every match of the pattern replaced by the replacement.
pub uninterp spec fn rx_replaced(p: Seq<char>, t: Seq<char>, rep: Seq<char>) -> Seq<char>;

/// Relies on `regex::Regex::new` and `find_iter`: compilation succeeds on a
/// fixed pattern independently of the text, and the iterator yields the
/// non-overlapping match substrings left to right.
#[verifier::external_body]
fn regex_find_all(pattern: &String, text: &String) -> (r: Option<Vec<String>>)
    ensures
        r is Some <==> rx_valid(pattern@),
        r matches Some(v) ==> v.deep_view() == rx_matches(pattern@, text@),
{
    let re = match regex::Regex::new(pattern.as_str()) {
        Ok(re) => re,
        Err(_) => return None,
    };
    Some(re.find_iter(text.as_str()).map(|m| m.as_str().to_string()).collect())
}

/// Relies on `regex::Regex::new` and `Regex::replace_all` with a literal
/// replacement free of `$`: replaces exactly the matched substrings, and
/// leaves the text unchanged when nothing matches.
#[verifier::external_body]
fn regex_replace_all(pattern: &String, text: &String, replacement: &str) -> (r: Option<String>)
    ensures
        r is Some <==> rx_valid(pattern@),
        r matches Some(s) ==> s@ == rx_replaced(pattern@, text@, replacement@),
        r matches Some(s) ==> (rx_matches(pattern@, text@).len() == 0 ==> s@ == text@),
{
    let re = match regex::Regex::new(pattern.as_str()) {
        Ok(re) => re,
        Err(_) => return None,
    };
    Some(re.replace_all(text.as_str(), replacement).into_owned())
}

/// Redaction patterns and script indicators.
pub struct SanitizationConfig {
    pub redact_patterns: Vec<String>,
    pub script_indicators: Vec<String>,
}

impl SanitizationConfig {
    /// Built-in secret patterns and shebang indicators.
    pub fn standard() -> (r: SanitizationConfig)
        ensures
            r.redact_patterns.deep_view() == seq![
                "SECRET[-_A-Z0-9]+"@,
                "API_KEY[=:][A-Za-z0-9_-]+"@,
                "(?i)password\\s*[:=]\\s*['\"][^'\"]+['\"]"@,
                "(?i)token\\s*[:=]\\s*['\"][^'\"]+['\"]"@,
            ],
            r.script_indicators.deep_view() == seq!["#!/bin"@, "#!/usr/bin/env"@],
    {
        let mut redact_patterns: Vec<String> = Vec::new();
        redact_patterns.push(String::from_str("SECRET[-_A-Z0-9]+"));
        redact_patterns.push(String::from_str("API_KEY[=:][A-Za-z0-9_-]+"));
        redact_patterns.push(String::from_str("(?i)password\\s*[:=]\\s*['\"][^'\"]+['\"]"));
        redact_patterns.push(String::from_str("(?i)token\\s*[:=]\\s*['\"][^'\"]+['\"]"));
        let mut script_indicators: Vec<String> = Vec::new();
        script_indicators.push(String::from_str("#!/bin"));
        script_indicators.push(String::from_str("#!/usr/bin/env"));
        let r = SanitizationConfig { redact_patterns, script_indicators };
        proof {
            assert(r.redact_patterns.deep_view() =~= seq![
                "SECRET[-_A-Z0-9]+"@,
                "API_KEY[=:][A-Za-z0-9_-]+"@,
                "(?i)password\\s*[:=]\\s*['\"][^'\"]+['\"]"@,
                "(?i)token\\s*[:=]\\s*['\"][^'\"]+['\"]"@,
            ]);
            assert(r.script_indicators.deep_view() =~= seq!["#!/bin"@, "#!/usr/bin/env"@]);
        }
        r
    }
}

impl std::default::Default for SanitizationConfig {
    /// The standard patterns and indicators.
    fn default() -> (r: SanitizationConfig)
        ensures
            r.redact_patterns.deep_view() == seq![
                "SECRET[-_A-Z0-9]+"@,
                "API_KEY[=:][A-Za-z0-9_-]+"@,
                "(?i)password\\s*[:=]\\s*['\"][^'\"]+['\"]"@,
                "(?i)token\\s*[:=]\\s*['\"][^'\"]+['\"]"@,
            ],
            r.script_indicators.deep_view() == seq!["#!/bin"@, "#!/usr/bin/env"@],
    {
        SanitizationConfig::standard()
    }
}

/// A scrubbed chunk with its redaction log.
#[derive(Debug)]
pub struct SanitizedChunk {
    pub plan_id: String,
    pub scrubbed_payload: String,
    pub redaction_log: Vec<String>,
    pub validation_status: String,
}

#[derive(Debug)]
pub enum SanitizationError {
    InvalidPattern(String),
}

/// The concatenation of the matches' UTF-8 bytes, each followed by a zero
/// byte: the input of the redaction digest.
pub open spec fn match_bytes(ms: Seq<Seq<char>>) -> Seq<u8>
    decreases ms.len(),
{
    if ms.len() == 0 {
        Seq::<u8>::empty()
    } else {
        encode_utf8(ms[0]) + seq![0u8] + match_bytes(ms.drop_first())
    }
}

/// The log line recorded for one pattern's matches.
pub open spec fn log_line(p: Seq<char>, ms: Seq<Seq<char>>) -> Seq<char> {
    p + " => count="@ + dec_of(ms.len() as nat) + ", digest="@ + hex_of(b3(match_bytes(ms)))
}

/// One pattern applied to a text: the scrubbed text and the log lines added.
pub open spec fn scrub_step(t: Seq<char>, p: Seq<char>) -> (Seq<char>, Seq<Seq<char>>) {
    let ms = rx_matches(p, t);
    if ms.len() == 0 {
        (t, Seq::<Seq<char>>::empty())
    } else {
        (rx_replaced(p, t, "[REDACTED]"@), seq![log_line(p, ms)])
    }
}

/// All patterns folded over a text, in declaration order.
pub open spec fn scrub_fold(t: Seq<char>, ps: Seq<Seq<char>>) -> (Seq<char>, Seq<Seq<char>>)
    decreases ps.len(),
{
    if ps.len() == 0 {
        (t, Seq::<Seq<char>>::empty())
    } else {
        let step = scrub_step(t, ps[0]);
        let rest = scrub_fold(step.0, ps.drop_first());
        (rest.0, step.1 + rest.1)
    }
}

/// Whether the payload begins with one of the script indicators.
pub open spec fn is_script(t: Seq<char>, indicators: Seq<Seq<char>>) -> bool {
    exists|k: int|
        0 <= k < indicators.len() && indicators[k].len() <= t.len() && t.take(
            indicators[k].len() as int,
        ) == indicators[k]
}

/// Whether a text starts with a prefix.
fn starts_with_chars(t: &Vec<char>, prefix: &String) -> (r: bool)
    ensures
        r == (prefix@.len() <= t@.len() && t@.take(prefix@.len() as int) == prefix@),
{
    let p = str_to_chars(prefix.as_str());
    if p.len() > t.len() {
        return false;
    }
    let mut i: usize = 0;
    while i < p.len()
        invariant
            0 <= i <= p@.len() <= t@.len(),
            p@ == prefix@,
            forall|k: int| 0 <= k < i ==> t@[k] == p@[k],
        decreases p@.len() - i,
    {
        if t[i] != p[i] {
            proof {
                assert(t@.take(p@.len() as int)[i as int] != p@[i as int]);
            }
            return false;
        }
        i = i + 1;
    }
    proof {
        assert(t@.take(p@.len() as int) =~= p@);
    }
    true
}

/// Applies the configured redaction patterns in declaration order and flags
/// script payloads.
pub struct Sanitizer {
    pub config: SanitizationConfig,
}

impl Sanitizer {
    pub fn new(config: SanitizationConfig) -> (r: Sanitizer)
        ensures
            r.config == config,
    {
        Sanitizer { config }
    }

    /// Scrub one planned chunk. Patterns are applied to the current text in
    /// order; each pattern with matches appends one log line holding the
    /// match count and digest, never a raw capture. The validation status is
    /// `script-reviewed` exactly when the original payload starts with a
    /// configured script indicator.
    #[verifier::loop_isolation(false)]
    #[verifier::rlimit(100)]
    pub fn apply(&self, chunk: &PlannedChunk) -> (r: Result<SanitizedChunk, SanitizationError>)
        ensures
            r matches Ok(s) ==> {
                let folded = scrub_fold(
                    chunk.payload@,
                    self.config.redact_patterns.deep_view(),
                );
                &&& s.plan_id@ == chunk.plan.plan_id@
                &&& s.scrubbed_payload@ == folded.0
                &&& s.redaction_log.deep_view() == folded.1
                &&& s.validation_status@ == (if is_script(
                    chunk.payload@,
                    self.config.script_indicators.deep_view(),
                ) {
                    "script-reviewed"@
                } else {
                    "clean"@
                })
            },
            r is Ok <==> (forall|k: int|
                0 <= k < self.config.redact_patterns.deep_view().len() ==> rx_valid(
                    #[trigger] self.config.redact_patterns.deep_view()[k],
                )),
            r matches Err(e) ==> (e matches SanitizationError::InvalidPattern(p) && (exists|
                k: int,
            |
                0 <= k < self.config.redact_patterns.deep_view().len() && p@
                    == #[trigger] self.config.redact_patterns.deep_view()[k] && !rx_valid(
                    self.config.redact_patterns.deep_view()[k],
                ) && (forall|j: int|
                    0 <= j < k ==> rx_valid(
                        #[trigger] self.config.redact_patterns.deep_view()[j],
                    )))),
    {
        let ghost ps = self.config.redact_patterns.deep_view();
        let mut scrubbed = chunk.payload.clone();
        let mut redaction_log: Vec<String> = Vec::new();
        let mut i: usize = 0;
        while i < self.config.redact_patterns.len()
            invariant
                0 <= i <= ps.len(),
                ps.len() == self.config.redact_patterns@.len(),
                forall|k: int| 0 <= k < i ==> rx_valid(#[trigger] ps[k]),
                (scrubbed@, redaction_log.deep_view()) == scrub_fold(
                    chunk.payload@,
                    ps.take(i as int),
                ),
            decreases ps.len() - i,
        {
            let pattern = &self.config.redact_patterns[i];
            let ghost pre_text = scrubbed@;
            let ghost pre_log = redaction_log.deep_view();
            let found = regex_find_all(pattern, &scrubbed);
            let matches = match found {
                None => {
                    proof {
                        assert(!rx_valid(ps[i as int]));
                    }
                    return Err(SanitizationError::InvalidPattern(pattern.clone()));
                },
                Some(v) => v,
            };
            if matches.len() > 0 {
                // digest over the captured substrings, each zero-terminated
                let mut digest_input: Vec<u8> = Vec::new();
                let mut k: usize = 0;
                while k < matches.len()
                    invariant
                        0 <= k <= matches@.len(),
                        matches.deep_view() == rx_matches(ps[i as int], pre_text),
                        digest_input@ == match_bytes(matches.deep_view().take(k as int)),
                    decreases matches@.len() - k,
                {
                    let mut piece = string_to_bytes(&matches[k]);
                    digest_input.append(&mut piece);
                    digest_input.push(0u8);
                    proof {
                        lemma_match_bytes_snoc(matches.deep_view(), k as int);
                        assert(digest_input@ =~= match_bytes(matches.deep_view().take(k + 1)));
                    }
                    k = k + 1;
                }
                proof {
                    assert(matches.deep_view().take(matches.deep_view().len() as int)
                        =~= matches.deep_view());
                }
                let digest = blake3_hash(&digest_input);
                let mut line: Vec<char> = Vec::new();
                push_str_chars(&mut line, pattern.as_str());
                push_str_chars(&mut line, " => count=");
                push_dec(matches.len() as u64, &mut line);
                push_str_chars(&mut line, ", digest=");
                push_hex(&digest, &mut line);
                proof {
                    assert(line@ =~= log_line(ps[i as int], rx_matches(ps[i as int], pre_text)));
                }
                let line_string = chars_to_string(&line);
                let ghost log_before_push = redaction_log.deep_view();
                redaction_log.push(line_string);
                proof {
                    assert(redaction_log.deep_view() =~= log_before_push.push(line@));
                }
                let replaced = regex_replace_all(pattern, &scrubbed, "[REDACTED]");
                scrubbed = match replaced {
                    None => {
                        return Err(SanitizationError::InvalidPattern(pattern.clone()));
                    },
                    Some(s) => s,
                };
            }
            proof {
                lemma_scrub_fold_snoc(chunk.payload@, ps, i as int);
                assert((scrubbed@, redaction_log.deep_view()) =~~= scrub_fold(
                    chunk.payload@,
                    ps.take(i + 1),
                ));
            }
            i = i + 1;
        }
        proof {
            assert(ps.take(ps.len() as int) =~= ps);
        }
        let payload_chars = str_to_chars(chunk.payload.as_str());
        let mut status = String::from_str("clean");
        let mut j: usize = 0;
        let ghost inds = self.config.script_indicators.deep_view();
        let mut found_script = false;
        while j < self.config.script_indicators.len()
            invariant
                0 <= j <= inds.len(),
                inds.len() == self.config.script_indicators@.len(),
                payload_chars@ == chunk.payload@,
                found_script == exists|k: int|
                    0 <= k < j && inds[k].len() <= chunk.payload@.len() && chunk.payload@.take(
                        inds[k].len() as int,
                    ) == inds[k],
            decreases inds.len() - j,
        {
            let hit = starts_with_chars(&payload_chars, &self.config.script_indicators[j]);
            proof {
                assert(inds[j as int] == self.config.script_indicators@[j as int]@);
            }
            if hit {
                found_script = true;
            }
            j = j + 1;
        }
        if found_script {
            status = String::from_str("script-reviewed");
        }
        Ok(
            SanitizedChunk {
                plan_id: chunk.plan.plan_id.clone(),
                scrubbed_payload: scrubbed,
                redaction_log,
                validation_status: status,
            },
        )
    }
}

/// Splitting the digest input after one more match.
proof fn lemma_match_bytes_snoc(ms: Seq<Seq<char>>, i: int)
    requires
        0 <= i < ms.len(),
    ensures
        match_bytes(ms.take(i + 1)) == match_bytes(ms.take(i)) + encode_utf8(ms[i]) + seq![0u8],
    decreases i,
{
    if i == 0 {
        assert(ms.take(1).drop_first() =~= Seq::<Seq<char>>::empty());
        assert(ms.take(0) =~= Seq::<Seq<char>>::empty());
        assert(ms.take(1)[0] == ms[0]);
        assert(match_bytes(ms.take(1)) =~= match_bytes(ms.take(0)) + encode_utf8(ms[0])
            + seq![0u8]);
    } else {
        lemma_match_bytes_snoc(ms.drop_first(), i - 1);
        assert(ms.take(i + 1).drop_first() =~= ms.drop_first().take(i));
        assert(ms.take(i).drop_first() =~= ms.drop_first().take(i - 1));
        assert(ms.take(i + 1)[0] == ms[0]);
        assert(ms.take(i)[0] == ms[0]);
        assert(ms.drop_first()[i - 1] == ms[i]);
        assert(match_bytes(ms.take(i + 1)) =~= match_bytes(ms.take(i)) + encode_utf8(ms[i])
            + seq![0u8]);
    }
}

/// Extending the pattern fold by one pattern.
proof fn lemma_scrub_fold_snoc(t0: Seq<char>, ps: Seq<Seq<char>>, i: int)
    requires
        0 <= i < ps.len(),
    ensures
        scrub_fold(t0, ps.take(i + 1)).0 == scrub_step(scrub_fold(t0, ps.take(i)).0, ps[i]).0,
        scrub_fold(t0, ps.take(i + 1)).1 == scrub_fold(t0, ps.take(i)).1 + scrub_step(
            scrub_fold(t0, ps.take(i)).0,
            ps[i],
        ).1,
    decreases i,
{
    if i == 0 {
        assert(ps.take(1).drop_first() =~= Seq::<Seq<char>>::empty());
        assert(ps.take(0) =~= Seq::<Seq<char>>::empty());
        assert(ps.take(1)[0] == ps[0]);
        let step = scrub_step(t0, ps[0]);
        assert(scrub_fold(step.0, ps.take(1).drop_first()) == (step.0, Seq::<Seq<char>>::empty()));
        assert(scrub_fold(t0, ps.take(1)) == (step.0, step.1 + Seq::<Seq<char>>::empty()));
        assert(scrub_fold(t0, ps.take(0)) == (t0, Seq::<Seq<char>>::empty()));
        assert(step.1 + Seq::<Seq<char>>::empty() =~= step.1);
        assert(Seq::<Seq<char>>::empty() + step.1 =~= step.1);
    } else {
        let step = scrub_step(t0, ps[0]);
        lemma_scrub_fold_snoc(step.0, ps.drop_first(), i - 1);
        assert(ps.take(i + 1).drop_first() =~= ps.drop_first().take(i));
        assert(ps.take(i).drop_first() =~= ps.drop_first().take(i - 1));
        assert(ps.take(i + 1)[0] == ps[0]);
        assert(ps.take(i)[0] == ps[0]);
        assert(ps.drop_first()[i - 1] == ps[i]);
        let ri = scrub_fold(step.0, ps.drop_first().take(i - 1));
        let ri1 = scrub_fold(step.0, ps.drop_first().take(i));
        assert(scrub_fold(t0, ps.take(i + 1)) == (ri1.0, step.1 + ri1.1));
        assert(scrub_fold(t0, ps.take(i)) == (ri.0, step.1 + ri.1));
        assert(ri1.0 == scrub_step(ri.0, ps[i]).0);
        assert(ri1.1 == ri.1 + scrub_step(ri.0, ps[i]).1);
        assert(step.1 + ri1.1 =~= (step.1 + ri.1) + scrub_step(ri.0, ps[i]).1);
    }
}

} // verus!
