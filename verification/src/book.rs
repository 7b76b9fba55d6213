//! The book as this library sees it, and the preprocessor that walks it: the
//! chapters in the order in which they are visited, drafts left alone.

use vstd::prelude::*;
use vstd::string::*;
use vstd::utf8::*;
use crate::preprocess::{preprocess, rewritten};
use crate::render::RenderFailure;
use crate::scan::scanned_events;
use crate::text::same_text;

verus! {

/// One chapter of a book. A draft has no content of its own to rewrite.
#[derive(Debug, Clone, PartialEq, Eq)]
pub struct Chapter {
    pub name: String,
    pub content: String,
    pub draft: bool,
}

/// A chapter with its content as bytes.
pub struct ChapterModel {
    pub name: Seq<char>,
    pub content: Seq<u8>,
    pub draft: bool,
}

impl View for Chapter {
    type V = ChapterModel;

    open spec fn view(&self) -> ChapterModel {
        ChapterModel { name: self.name@, content: encode_utf8(self.content@), draft: self.draft }
    }
}

/// The chapters of a list, in its order.
pub open spec fn chapter_models(chapters: Seq<Chapter>) -> Seq<ChapterModel> {
    Seq::new(chapters.len(), |i: int| chapters[i]@)
}

/// One chapter after the run: a draft as it was, any other with its content
/// rewritten.
pub open spec fn chapter_rewritten(chapter: ChapterModel) -> Result<ChapterModel, RenderFailure> {
    if chapter.draft {
        Ok(chapter)
    } else {
        match rewritten(chapter.content, scanned_events(decode_utf8(chapter.content))) {
            Ok(content) => Ok(
                ChapterModel { name: chapter.name, content: content, draft: chapter.draft },
            ),
            Err(e) => Err(e),
        }
    }
}

/// The book after the run. The first chapter that fails, in the order of the
/// list, fails the run.
pub open spec fn book_rewritten(chapters: Seq<ChapterModel>) -> Result<
    Seq<ChapterModel>,
    RenderFailure,
>
    decreases chapters.len(),
{
    if chapters.len() == 0 {
        Ok(Seq::empty())
    } else {
        match book_rewritten(chapters.drop_last()) {
            Err(e) => Err(e),
            Ok(before) => match chapter_rewritten(chapters.last()) {
                Err(e) => Err(e),
                Ok(chapter) => Ok(before.push(chapter)),
            },
        }
    }
}

/// A run that succeeds returns as many chapters as it got, each under its
/// name and with its draft flag, and every draft with the content it had.
pub proof fn lemma_run_keeps_shape(chapters: Seq<ChapterModel>)
    requires
        book_rewritten(chapters) is Ok,
    ensures
        book_rewritten(chapters)->Ok_0.len() == chapters.len(),
        forall|i: int|
            0 <= i < chapters.len() ==> {
                let after = #[trigger] book_rewritten(chapters)->Ok_0[i];
                &&& after.name == chapters[i].name
                &&& after.draft == chapters[i].draft
                &&& chapters[i].draft ==> after == chapters[i]
                &&& chapter_rewritten(chapters[i]) == Ok::<ChapterModel, RenderFailure>(after)
            },
    decreases chapters.len(),
{
    if chapters.len() > 0 {
        lemma_run_keeps_shape(chapters.drop_last());
        let before = book_rewritten(chapters.drop_last())->Ok_0;
        let out = book_rewritten(chapters)->Ok_0;
        assert forall|i: int| 0 <= i < chapters.len() implies {
            let after = #[trigger] out[i];
            &&& after.name == chapters[i].name
            &&& after.draft == chapters[i].draft
            &&& chapters[i].draft ==> after == chapters[i]
            &&& chapter_rewritten(chapters[i]) == Ok::<ChapterModel, RenderFailure>(after)
        } by {
            if i < chapters.len() - 1 {
                assert(out[i] == before[i]);
                assert(chapters.drop_last()[i] == chapters[i]);
            }
        }
    }
}

proof fn lemma_book_failure_stays(chapters: Seq<ChapterModel>, upto: int)
    requires
        0 <= upto <= chapters.len(),
        book_rewritten(chapters.subrange(0, upto)) is Err,
    ensures
        book_rewritten(chapters) == book_rewritten(chapters.subrange(0, upto)),
    decreases chapters.len() - upto,
{
    if upto < chapters.len() {
        let next = chapters.subrange(0, upto + 1);
        assert(next.drop_last() =~= chapters.subrange(0, upto));
        lemma_book_failure_stays(chapters, upto + 1);
    } else {
        assert(chapters.subrange(0, upto) =~= chapters);
    }
}

/// The preprocessor. It holds no state: nothing is shared between chapters
/// or between runs.
pub struct GodboltPreprocessor;

impl GodboltPreprocessor {
    /// A preprocessor.
    pub fn new() -> GodboltPreprocessor {
        GodboltPreprocessor
    }

    /// The name under which the preprocessor is configured.
    pub fn name(&self) -> (name: &'static str)
        ensures
            name@ == "mdbook-godbolt"@,
    {
        "mdbook-godbolt"
    }

    /// Only the HTML renderer is supported, under either spelling.
    pub fn supports_renderer(&self, renderer: &str) -> (supported: bool)
        ensures
            supported == (renderer@ == "HTML"@ || renderer@ == "html"@),
    {
        same_text(renderer, "HTML") || same_text(renderer, "html")
    }

    /// Rewrites every chapter that is no draft, in the order of the list,
    /// and returns the chapters in that order, each under its name. The run
    /// stops at the first chapter that fails and returns the failure alone:
    /// no part of the book comes back.
    pub fn run(&self, book: Vec<Chapter>) -> (r: Result<Vec<Chapter>, RenderFailure>)
        ensures
            match r {
                Ok(after) => {
                    &&& book_rewritten(chapter_models(book@)) == Ok::<
                        Seq<ChapterModel>,
                        RenderFailure,
                    >(chapter_models(after@))
                    &&& after@.len() == book@.len()
                    &&& forall|i: int|
                        0 <= i < book@.len() ==> {
                            &&& (#[trigger] after@[i]).name@ == book@[i].name@
                            &&& after@[i].draft == book@[i].draft
                            &&& book@[i].draft ==> after@[i]@ == book@[i]@
                        }
                },
                Err(e) => book_rewritten(chapter_models(book@)) == Err::<
                    Seq<ChapterModel>,
                    RenderFailure,
                >(e),
            },
    {
        let ghost models = chapter_models(book@);
        let mut after: Vec<Chapter> = Vec::new();
        let mut i: usize = 0;
        assert(chapter_models(after@) =~= Seq::<ChapterModel>::empty());
        while i < book.len()
            invariant
                i <= book.len(),
                models == chapter_models(book@),
                book_rewritten(models.subrange(0, i as int)) == Ok::<
                    Seq<ChapterModel>,
                    RenderFailure,
                >(chapter_models(after@)),
            decreases book.len() - i,
        {
            let chapter = &book[i];
            let ghost before = chapter_models(after@);
            proof {
                let upto = models.subrange(0, i + 1);
                assert(upto.drop_last() =~= models.subrange(0, i as int));
                assert(upto.last() == chapter@);
                encode_utf8_decode_utf8(chapter.content@);
            }
            let content: String = if chapter.draft {
                chapter.content.clone()
            } else {
                match preprocess(chapter.content.as_str()) {
                    Ok(content) => content,
                    Err(e) => {
                        proof {
                            lemma_book_failure_stays(models, i + 1);
                        }
                        return Err(e);
                    },
                }
            };
            let rewritten = Chapter { name: chapter.name.clone(), content, draft: chapter.draft };
            after.push(rewritten);
            assert(chapter_models(after@) =~= before.push(rewritten@));
            i += 1;
        }
        proof {
            assert(models.subrange(0, i as int) =~= models);
            lemma_run_keeps_shape(models);
            assert forall|j: int| 0 <= j < book@.len() implies {
                &&& (#[trigger] after@[j]).name@ == book@[j].name@
                &&& after@[j].draft == book@[j].draft
                &&& book@[j].draft ==> after@[j]@ == book@[j]@
            } by {
                assert(chapter_models(after@)[j] == after@[j]@);
                assert(models[j] == book@[j]@);
            }
        }
        Ok(after)
    }
}

} // verus!
