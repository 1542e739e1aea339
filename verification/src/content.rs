use vstd::prelude::*;

use crate::engine::{
    count_texts, groups_of, groups_rewritten, lemma_groups_flatten, lemma_groups_wf,
    lemma_rewritten_len, runs_locators, runs_locators_spec, runs_rewrite,
};

verus! {

/// What the markdown tokenizer yields for a document: one entry per event, in
/// document order, a text event carrying its bytes and every other event
/// marked `None`. Parsing is a pure function of the source text.
pub uninterp spec fn md_runs(content: Seq<char>) -> Seq<Option<Seq<u8>>>;

/// The markdown serialization of the document's event sequence after the text
/// events' contents are replaced, one for one and in order, by `texts`. A pure
/// function of the source text and the replacement texts.
pub uninterp spec fn md_recomposed(content: Seq<char>, texts: Seq<Seq<u8>>) -> Seq<char>;

/// Whether that serialization succeeds: every replacement is well-formed text
/// and the serializer accepts the rewritten event stream. Like `md_recomposed`,
/// a pure function of the source text and the replacement texts.
pub uninterp spec fn md_recompose_ok(content: Seq<char>, texts: Seq<Seq<u8>>) -> bool;

/// Relies on pulldown_cmark::Parser::new: it decomposes markdown source into an
/// ordered event stream; each text event's text is yielded here as its bytes,
/// every other event as `None`.
#[verifier::external_body]
fn md_event_runs(content: &str) -> (r: Vec<Option<Vec<u8>>>)
    ensures
        r.deep_view() == md_runs(content@),
{
    pulldown_cmark::Parser::new(content)
        .map(|ev| match ev {
            pulldown_cmark::Event::Text(text) => Some(text.into_string().into_bytes()),
            _ => None,
        })
        .collect()
}

/// Relies on pulldown_cmark::Parser::new and pulldown_cmark_to_cmark::cmark: it
/// re-parses the source, hands each text event the next replacement text, and
/// serializes the rewritten event sequence back to markdown. It fails when a
/// replacement is not well-formed text or the serializer refuses the stream.
#[verifier::external_body]
fn md_recompose(content: &str, texts: &Vec<Vec<u8>>) -> (r: Option<String>)
    requires
        texts.deep_view().len() == count_texts(md_runs(content@)),
    ensures
        r is Some <==> md_recompose_ok(content@, texts.deep_view()),
        r matches Some(s) ==> s@ == md_recomposed(content@, texts.deep_view()),
{
    let mut it = texts.iter();
    let mut ok = true;
    let events: Vec<pulldown_cmark::Event> = pulldown_cmark::Parser::new(content).map(|ev| match ev {
        pulldown_cmark::Event::Text(_) => match String::from_utf8(it.next().unwrap().clone()) {
            Ok(s) => pulldown_cmark::Event::Text(s.into()),
            Err(_) => { ok = false; pulldown_cmark::Event::Text("".into()) },
        },
        other => other,
    }).collect();
    let mut buf = String::new();
    let res = pulldown_cmark_to_cmark::cmark(events.iter(), &mut buf, pulldown_cmark::Options::empty());
    if ok && res.is_ok() { Some(buf) } else { None }
}

/// Why a document could not be rewritten.
#[derive(Clone, Copy, Debug, PartialEq, Eq, Structural)]
pub enum RewriteError {
    /// The number of bodies does not match the number of directives.
    BodyCountMismatch,
    /// The rewritten event sequence could not be serialized back to markdown.
    SerializeFailure,
}

/// The locators of every directive in the document, in document order: the text
/// runs of the markdown event stream, adjacent runs merged, each merged buffer
/// scanned.
pub fn content_locators(content: &str) -> (r: Vec<Vec<u8>>)
    ensures
        r.deep_view() == runs_locators_spec(md_runs(content@)),
{
    let runs = md_event_runs(content);
    runs_locators(&runs)
}

/// Rewrite one document: replace its directives, in document order, each by a
/// newline and the corresponding body, keep all other events, and serialize the
/// result back to markdown. The caller supplies one body per directive, in the
/// order `content_locators` reports. It succeeds exactly when the body count
/// matches and the serializer accepts the rewritten stream, and each error
/// names which of the two failed.
pub fn rewrite_content(content: &str, bodies: &Vec<Vec<u8>>) -> (r: Result<String, RewriteError>)
    ensures
        r == Err::<String, RewriteError>(RewriteError::BodyCountMismatch) <==> bodies.deep_view().len()
            != runs_locators_spec(md_runs(content@)).len(),
        bodies.deep_view().len() == runs_locators_spec(md_runs(content@)).len() ==> {
            let texts = groups_rewritten(groups_of(md_runs(content@)), bodies.deep_view());
            &&& (r is Ok <==> md_recompose_ok(content@, texts))
            &&& (r matches Ok(s) ==> s@ == md_recomposed(content@, texts))
            &&& (!md_recompose_ok(content@, texts) ==> r == Err::<String, RewriteError>(
                RewriteError::SerializeFailure,
            ))
        },
{
    let runs = md_event_runs(content);
    match runs_rewrite(&runs, bodies) {
        None => Err(RewriteError::BodyCountMismatch),
        Some(texts) => {
            proof {
                lemma_groups_wf(runs.deep_view());
                lemma_rewritten_len(groups_of(runs.deep_view()), bodies.deep_view());
                lemma_groups_flatten(runs.deep_view());
            }
            match md_recompose(content, &texts) {
                Some(s) => Ok(s),
                None => Err(RewriteError::SerializeFailure),
            }
        },
    }
}

} // verus!
