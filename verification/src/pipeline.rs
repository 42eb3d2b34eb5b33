//! The course of a translation around its chapters: what is asked for, which
//! entries of the archive are pages, how far a preview goes, and what is copied
//! at the end.

use crate::epub::{is_html_path, text_of_bytes};
use crate::text::{blank, ends_with, insert_in_order, same_text, to_ascii_lowercase, trim};
use vstd::hash_set::StringHashSet;
use vstd::prelude::*;
use vstd::string::*;

verus! {

broadcast use vstd::string::group_string_axioms;

// ---------------------------------------------------------------------------
// Requests and results
// ---------------------------------------------------------------------------
/// What is to be translated, where to and how.
#[derive(Debug)]
pub struct TranslateEpubRequest {
    pub input_path: String,
    pub output_path: String,
    pub target_language: String,
    pub api_key: String,
    pub provider: String,
    pub model: String,
    pub preview_only: bool,
    pub preview_pages: Option<u32>,
}

/// What was translated.
#[derive(Debug)]
pub struct TranslateEpubResult {
    pub output_path: String,
    pub total_html_files: usize,
    pub translated_html_files: usize,
    pub translated_characters: usize,
    pub preview_only: bool,
}

/// Why a request is refused.
pub open spec fn request_fault(request: TranslateEpubRequest) -> Option<Seq<char>> {
    if crate::text::is_blank(request.input_path@) || crate::text::is_blank(request.output_path@) {
        Some("Las rutas de entrada y salida son obligatorias"@)
    } else if crate::text::is_blank(request.api_key@) {
        Some("La API key de DeepSeek es obligatoria"@)
    } else if !crate::text::has_suffix(
        crate::text::ascii_lower(crate::text::trimmed(request.input_path@)),
        ".epub"@,
    ) {
        Some("Solo se admiten archivos .epub"@)
    } else {
        None
    }
}

/// Checks a request.
pub fn check_request(request: &TranslateEpubRequest) -> (r: Result<(), String>)
    ensures
        match r {
            Ok(()) => request_fault(*request) is None,
            Err(error) => request_fault(*request) == Some(error@),
        },
{
    if blank(request.input_path.as_str()) || blank(request.output_path.as_str()) {
        return Err("Las rutas de entrada y salida son obligatorias".to_string());
    }
    if blank(request.api_key.as_str()) {
        return Err("La API key de DeepSeek es obligatoria".to_string());
    }
    let lower = to_ascii_lowercase(trim(request.input_path.as_str()).as_str());
    if !ends_with(lower.as_str(), ".epub") {
        return Err("Solo se admiten archivos .epub".to_string());
    }
    Ok(())
}

/// Why an output path is refused: it is that of the input, or its folder does
/// not exist.
pub open spec fn output_fault(same_as_input: bool, missing_folder: Option<Seq<char>>) -> Option<
    Seq<char>,
> {
    if same_as_input {
        Some("La ruta de salida no puede ser igual a la de entrada"@)
    } else {
        match missing_folder {
            Some(folder) => Some("La carpeta de salida no existe: "@ + folder),
            None => None,
        }
    }
}

/// Checks an output path.
pub fn check_output(same_as_input: bool, missing_folder: Option<&str>) -> (r: Result<(), String>)
    ensures
        match r {
            Ok(()) => output_fault(same_as_input, crate::options::opt_view(missing_folder)) is None,
            Err(error) => output_fault(same_as_input, crate::options::opt_view(missing_folder))
                == Some(error@),
        },
{
    if same_as_input {
        return Err("La ruta de salida no puede ser igual a la de entrada".to_string());
    }
    if let Some(folder) = missing_folder {
        let mut text = "La carpeta de salida no existe: ".to_string();
        text.append(folder);
        return Err(text);
    }
    Ok(())
}

/// The name of a language, by its code; anything unknown is Spanish.
pub open spec fn language_name(code: Seq<char>) -> Seq<char> {
    if code == "en"@ {
        "ingles"@
    } else if code == "fr"@ {
        "frances"@
    } else if code == "de"@ {
        "aleman"@
    } else {
        "espanol"@
    }
}

/// The name of a language, by its code.
pub fn language_label(code: &str) -> (r: &'static str)
    ensures
        r@ == language_name(code@),
{
    if same_text(code, "en") {
        "ingles"
    } else if same_text(code, "fr") {
        "frances"
    } else if same_text(code, "de") {
        "aleman"
    } else {
        "espanol"
    }
}

// ---------------------------------------------------------------------------
// One translation at a time
// ---------------------------------------------------------------------------
/// Whether a translation is under way.
pub struct RunState {
    active: bool,
}

/// The right to translate, until it is given back.
pub struct TranslationRunGuard {
    _private: (),
}

impl RunState {
    /// A translation is under way.
    pub closed spec fn is_active(&self) -> bool {
        self.active
    }

    /// No translation is under way.
    pub fn new() -> (r: RunState)
        ensures
            !r.is_active(),
    {
        RunState { active: false }
    }

    /// Ends a translation.
    pub fn release(&mut self, guard: TranslationRunGuard)
        ensures
            !final(self).is_active(),
    {
        self.active = false;
    }
}

/// Begins a translation, unless one is under way.
pub fn acquire_translation_run_guard(state: &mut RunState) -> (r: Result<
    TranslationRunGuard,
    String,
>)
    ensures
        final(state).is_active(),
        match r {
            Ok(_) => !old(state).is_active(),
            Err(error) => old(state).is_active() && error@
                == "Ya hay una traduccion en curso. Espera a que termine antes de iniciar otra."@,
        },
{
    if state.active {
        return Err(
            "Ya hay una traduccion en curso. Espera a que termine antes de iniciar otra.".to_string(),
        );
    }
    state.active = true;
    Ok(TranslationRunGuard { _private: () })
}

// ---------------------------------------------------------------------------
// The entries of a book
// ---------------------------------------------------------------------------
/// What an entry of the reading order holds: a page, or anything else.
#[derive(Debug)]
pub enum SpineEntryContent {
    Html(String),
    Raw(Vec<u8>),
}

/// Tells a page from anything else: a page has the name of one and is UTF-8.
pub fn classify_entry(file_name: &str, bytes: Vec<u8>) -> (r: SpineEntryContent)
    ensures
        match r {
            SpineEntryContent::Html(text) => crate::epub::names_page(file_name@)
                && crate::epub::utf8_text(bytes@) == Some(text@),
            SpineEntryContent::Raw(same) => same@ == bytes@ && (!crate::epub::names_page(file_name@)
                || crate::epub::utf8_text(bytes@) is None),
        },
{
    if !is_html_path(file_name) {
        return SpineEntryContent::Raw(bytes);
    }
    match text_of_bytes(bytes) {
        Ok(text) => SpineEntryContent::Html(text),
        Err(same) => SpineEntryContent::Raw(same),
    }
}

/// The places where pages stand, in order.
pub open spec fn page_positions(pages: Seq<bool>) -> Seq<usize>
    decreases pages.len(),
{
    if pages.len() == 0 {
        Seq::empty()
    } else if pages.last() {
        page_positions(pages.drop_last()).push((pages.len() - 1) as usize)
    } else {
        page_positions(pages.drop_last())
    }
}

/// The places of pages grow, and are those of pages alone.
proof fn lemma_page_positions(pages: Seq<bool>)
    requires
        pages.len() <= usize::MAX,
    ensures
        forall|k: int|
            0 <= k < page_positions(pages).len() ==> (#[trigger] page_positions(pages)[k])
                < pages.len() && pages[page_positions(pages)[k] as int],
        forall|a: int, b: int|
            0 <= a < b < page_positions(pages).len() ==> #[trigger] page_positions(pages)[a]
                < #[trigger] page_positions(pages)[b],
        page_positions(pages).len() <= pages.len(),
    decreases pages.len(),
{
    if pages.len() > 0 {
        let init = pages.drop_last();
        lemma_page_positions(init);
        assert forall|k: int| 0 <= k < page_positions(pages).len() implies (
        #[trigger] page_positions(pages)[k]) < pages.len() && pages[page_positions(
            pages,
        )[k] as int] by {
            if k < page_positions(init).len() {
                assert(page_positions(pages)[k] == page_positions(init)[k]);
                assert(init[page_positions(init)[k] as int]);
            }
        }
        assert forall|a: int, b: int| 0 <= a < b < page_positions(pages).len() implies
            #[trigger] page_positions(pages)[a] < #[trigger] page_positions(pages)[b] by {
            assert(page_positions(pages)[a] == page_positions(init)[a]);
            if b < page_positions(init).len() {
                assert(page_positions(pages)[b] == page_positions(init)[b]);
            }
        }
    }
}

/// Every page of a book is among the places, once, and nothing else is.
pub proof fn law_every_page_has_its_place(pages: Seq<bool>, i: usize)
    requires
        pages.len() <= usize::MAX,
    ensures
        page_positions(pages).contains(i) <==> i < pages.len() && pages[i as int],
        page_positions(pages).no_duplicates(),
    decreases pages.len(),
{
    lemma_page_positions(pages);
    if page_positions(pages).contains(i) {
        let k = choose|k: int| 0 <= k < page_positions(pages).len() && page_positions(pages)[k] == i;
        assert(page_positions(pages)[k] == i);
    }
    if i < pages.len() && pages[i as int] {
        let init = pages.drop_last();
        law_every_page_has_its_place(init, i);
        if i == pages.len() - 1 {
            assert(page_positions(pages).last() == i);
            assert(page_positions(pages)[page_positions(pages).len() - 1] == i);
        } else {
            assert(init[i as int]);
            let k = choose|k: int|
                0 <= k < page_positions(init).len() && page_positions(init)[k] == i;
            assert(page_positions(pages)[k] == i);
        }
    }
}

/// The places where pages stand, in order.
pub fn html_positions(pages: &Vec<bool>) -> (r: Vec<usize>)
    ensures
        r@ == page_positions(pages@),
        r@.no_duplicates(),
        forall|i: usize| #[trigger] r@.contains(i) <==> i < pages@.len() && pages@[i as int],
{
    let mut positions: Vec<usize> = Vec::new();
    let mut i: usize = 0;
    assert(pages@.take(0) =~= Seq::<bool>::empty());
    while i < pages.len()
        invariant
            i <= pages.len(),
            positions@ == page_positions(pages@.take(i as int)),
        decreases pages.len() - i,
    {
        assert(pages@.take(i + 1).drop_last() =~= pages@.take(i as int));
        assert(pages@.take(i + 1).last() == pages@[i as int]);
        if pages[i] {
            positions.push(i);
        }
        i += 1;
    }
    assert(pages@.take(pages@.len() as int) =~= pages@);
    proof {
        lemma_page_positions(pages@);
        assert forall|k: usize| #[trigger] positions@.contains(k) <==> k < pages@.len()
            && pages@[k as int] by {
            law_every_page_has_its_place(pages@, k);
        }
    }
    positions
}

/// The pages among names, in order.
pub open spec fn pages_among(names: Seq<Seq<char>>) -> Seq<Seq<char>> {
    names.filter(|name: Seq<char>| crate::epub::names_page(name))
}

/// The reading order of a book that gives none: its pages, by their names.
pub fn order_by_name(names: &Vec<String>) -> (r: Vec<String>)
    ensures
        crate::text::views(r@).to_multiset() == pages_among(
            crate::text::views(names@),
        ).to_multiset(),
        crate::text::in_order(crate::text::views(r@)),
{
    let ghost all = crate::text::views(names@);
    let ghost wanted = |name: Seq<char>| crate::epub::names_page(name);
    let mut order: Vec<String> = Vec::new();
    let mut i: usize = 0;
    proof {
        reveal(Seq::filter);
        assert(all.take(0).filter(wanted) =~= Seq::<Seq<char>>::empty());
        assert(crate::text::views(order@) =~= Seq::<Seq<char>>::empty());
    }
    while i < names.len()
        invariant
            i <= names.len(),
            all == crate::text::views(names@),
            wanted == (|name: Seq<char>| crate::epub::names_page(name)),
            crate::text::views(order@).to_multiset() == all.take(i as int).filter(
                wanted,
            ).to_multiset(),
            crate::text::in_order(crate::text::views(order@)),
        decreases names.len() - i,
    {
        proof {
            reveal(Seq::filter);
            assert(all.take(i + 1).drop_last() =~= all.take(i as int));
            assert(all.take(i + 1).last() == names@[i as int]@);
            vstd::seq_lib::to_multiset_build(all.take(i as int).filter(wanted), all[i as int]);
        }
        if is_html_path(names[i].as_str()) {
            insert_in_order(&mut order, names[i].clone());
        }
        i += 1;
    }
    assert(all.take(all.len() as int) =~= all);
    order
}

/// The entries that were written in reading order; the others are copied at the
/// end.
pub struct WrittenPaths {
    paths: StringHashSet,
}

impl View for WrittenPaths {
    type V = Set<Seq<char>>;

    closed spec fn view(&self) -> Set<Seq<char>> {
        self.paths@
    }
}

impl WrittenPaths {
    /// Nothing was written.
    pub fn new() -> (r: WrittenPaths)
        ensures
            r@ == Set::<Seq<char>>::empty(),
    {
        WrittenPaths { paths: StringHashSet::new() }
    }

    /// Notes an entry of the reading order.
    pub fn note(&mut self, file_name: &str)
        ensures
            final(self)@ == old(self)@.insert(file_name@),
    {
        self.paths.insert(file_name.to_string());
    }

    /// Whether an entry of the archive is still to be copied.
    pub fn leaves(&self, file_name: &str) -> (r: bool)
        ensures
            r == !self@.contains(file_name@),
    {
        !self.paths.contains(file_name)
    }
}

// ---------------------------------------------------------------------------
// Previews
// ---------------------------------------------------------------------------
/// A preview: how many characters it may translate, how many it has, and how
/// many pages are done.
pub struct PreviewState {
    pub limit: nat,
    pub translated: nat,
    pub pages: nat,
}

impl PreviewState {
    /// No more was translated than may be.
    pub open spec fn within(self) -> bool {
        self.translated <= self.limit
    }
}

/// A preview on its way through the pages.
pub struct PreviewRun {
    limit: usize,
    translated: usize,
    pages: usize,
}

impl View for PreviewRun {
    type V = PreviewState;

    closed spec fn view(&self) -> PreviewState {
        PreviewState {
            limit: self.limit as nat,
            translated: self.translated as nat,
            pages: self.pages as nat,
        }
    }
}

impl PreviewRun {
    /// Begins with a limit of characters.
    pub fn new(limit: usize) -> (r: PreviewRun)
        ensures
            r@ == (PreviewState { limit: limit as nat, translated: 0, pages: 0 }),
    {
        PreviewRun { limit, translated: 0, pages: 0 }
    }

    /// How many characters of the next page may be translated; none where the
    /// preview is over and the page stays as it is.
    pub fn page_budget(&self) -> (r: Option<usize>)
        ensures
            match r {
                Some(budget) => self@.translated < self@.limit && budget == self@.limit
                    - self@.translated,
                None => self@.translated >= self@.limit,
            },
    {
        if self.translated < self.limit {
            Some(self.limit - self.translated)
        } else {
            None
        }
    }

    /// Takes note of a page that is done.
    pub fn on_page(&mut self, consumed_chars: usize)
        requires
            old(self)@.translated + consumed_chars <= usize::MAX,
            old(self)@.pages < usize::MAX,
        ensures
            final(self)@ == (PreviewState {
                translated: old(self)@.translated + consumed_chars as nat,
                pages: old(self)@.pages + 1,
                ..old(self)@
            }),
            old(self)@.within() && consumed_chars <= old(self)@.limit - old(self)@.translated
                ==> final(self)@.within(),
    {
        self.translated += consumed_chars;
        self.pages += 1;
    }

    /// How many characters were translated.
    pub fn translated_characters(&self) -> (r: usize)
        ensures
            r == self@.translated,
    {
        self.translated
    }

    /// How many pages are done.
    pub fn finished_pages(&self) -> (r: usize)
        ensures
            r == self@.pages,
    {
        self.pages
    }
}

/// A page that stays within its budget keeps a preview within its limit.
pub proof fn law_pages_within_their_budget_keep_the_limit(s: PreviewState, page: crate::page::PageState)
    requires
        s.translated < s.limit,
        page.sound(),
        page.budget == Some((s.limit - s.translated) as nat),
    ensures
        s.translated + page.consumed <= s.limit,
{
}

// ---------------------------------------------------------------------------
// Messages
// ---------------------------------------------------------------------------
/// What is reported of a page of a preview.
pub fn page_message(file_name: &str) -> (r: String)
    ensures
        r@ == "Traduciendo "@ + file_name@,
{
    let mut text = "Traduciendo ".to_string();
    text.append(file_name);
    text
}

/// What is said at the end.
pub fn completion_message(preview_only: bool, elapsed: &str) -> (r: String)
    ensures
        r@ == (if preview_only {
            "La vista previa"@
        } else {
            "La traduccion"@
        }) + " termino correctamente.\nTiempo total: "@ + elapsed@,
{
    let mut text = if preview_only {
        "La vista previa".to_string()
    } else {
        "La traduccion".to_string()
    };
    text.append(" termino correctamente.\nTiempo total: ");
    text.append(elapsed);
    text
}

/// A greeting.
pub fn greet(name: &str) -> (r: String)
    ensures
        r@ == "Hello, "@ + name@ + "! You've been greeted from Rust!"@,
{
    let mut text = "Hello, ".to_string();
    text.append(name);
    text.append("! You've been greeted from Rust!");
    text
}

// ---------------------------------------------------------------------------
// What is promised of a run
// ---------------------------------------------------------------------------
/// A request is accepted where paths and key are given and the input is an EPUB
/// file, in capitals or not; what is wrong is said, paths first.
pub proof fn law_requests_are_checked(request: TranslateEpubRequest)
    ensures
        ({
            let input = crate::text::trimmed(request.input_path@);
            let paths = input.len() > 0 && crate::text::trimmed(request.output_path@).len() > 0;
            let key = crate::text::trimmed(request.api_key@).len() > 0;
            let epub = crate::text::has_suffix(crate::text::ascii_lower(input), ".epub"@);
            &&& request_fault(request) is None <==> paths && key && epub
            &&& !paths ==> request_fault(request) == Some(
                "Las rutas de entrada y salida son obligatorias"@,
            )
            &&& paths && !key ==> request_fault(request) == Some(
                "La API key de DeepSeek es obligatoria"@,
            )
            &&& paths && key && !epub ==> request_fault(request) == Some(
                "Solo se admiten archivos .epub"@,
            )
        }),
{
    crate::text::lemma_trimmed_empty(request.input_path@);
    crate::text::lemma_trimmed_empty(request.output_path@);
    crate::text::lemma_trimmed_empty(request.api_key@);
}

/// A book is never written over itself, nor into a folder that is not there.
pub proof fn law_outputs_are_checked(missing: Option<Seq<char>>, folder: Seq<char>)
    ensures
        output_fault(true, missing) == Some(
            "La ruta de salida no puede ser igual a la de entrada"@,
        ),
        output_fault(false, Some(folder)) == Some("La carpeta de salida no existe: "@ + folder),
        output_fault(false, None) is None,
{
}

/// English, French and German are told by their codes, and every other code
/// stands for Spanish, which is known for Spanish by its name.
pub proof fn law_languages_have_their_names(code: Seq<char>)
    ensures
        language_name("en"@) == "ingles"@,
        language_name("fr"@) == "frances"@,
        language_name("de"@) == "aleman"@,
        code != "en"@ && code != "fr"@ && code != "de"@ ==> language_name(code) == "espanol"@,
        crate::quality::names_spanish(language_name(code)) <==> code != "en"@ && code != "fr"@
            && code != "de"@,
{
    reveal_strlit("en");
    reveal_strlit("fr");
    reveal_strlit("de");
    assert("en"@[0] == 'e');
    assert("fr"@[0] == 'f');
    assert("de"@[0] == 'd');
    lemma_languages();
}

#[verifier::spinoff_prover]
proof fn lemma_languages()
    ensures
        crate::quality::names_spanish("espanol"@),
        !crate::quality::names_spanish("ingles"@),
        !crate::quality::names_spanish("frances"@),
        !crate::quality::names_spanish("aleman"@),
{
    reveal_strlit("espanol");
    reveal_strlit("espan");
    reveal_strlit("ol");
    reveal_strlit("ingles");
    reveal_strlit("frances");
    reveal_strlit("aleman");
    assert("espanol"@ =~= Seq::<char>::empty() + "espan"@ + "ol"@);
    crate::quality::law_spanish_is_told_by_its_name(Seq::empty(), "ol"@);
    crate::quality::law_other_languages_are_not_spanish("ingles"@);
    crate::quality::law_other_languages_are_not_spanish("frances"@);
    crate::quality::law_other_languages_are_not_spanish("aleman"@);
}

/// The pages among names are those names that are names of pages, all of them
/// and in their order.
pub proof fn law_pages_are_found_among_names(
    a: Seq<Seq<char>>,
    name: Seq<char>,
    b: Seq<Seq<char>>,
)
    ensures
        crate::epub::names_page(name) ==> pages_among(a + seq![name] + b) == pages_among(a) + seq![
            name,
        ] + pages_among(b),
        !crate::epub::names_page(name) ==> pages_among(a + seq![name] + b) == pages_among(a)
            + pages_among(b),
        pages_among(Seq::empty()) == Seq::<Seq<char>>::empty(),
{
    let wanted = |name: Seq<char>| crate::epub::names_page(name);
    reveal(Seq::filter);
    Seq::filter_distributes_over_add(a, seq![name], wanted);
    Seq::filter_distributes_over_add(a + seq![name], b, wanted);
    assert(seq![name].drop_last() =~= Seq::empty());
    assert(Seq::<Seq<char>>::empty().filter(wanted) =~= Seq::empty());
    assert(seq![name].filter(wanted) =~= if wanted(name) {
        seq![name]
    } else {
        Seq::empty()
    });
    assert(pages_among(a) + Seq::<Seq<char>>::empty() =~= pages_among(a));
}

/// The places of pages come in the order of the entries.
pub proof fn law_pages_keep_their_order(pages: Seq<bool>, a: int, b: int)
    requires
        pages.len() <= usize::MAX,
        0 <= a < b < page_positions(pages).len(),
    ensures
        page_positions(pages)[a] < page_positions(pages)[b],
{
    lemma_page_positions(pages);
}

/// A preview is within its limit as long as no more was translated than that.
pub proof fn law_previews_have_a_limit(s: PreviewState)
    ensures
        s.within() <==> s.translated <= s.limit,
{
}

} // verus!
