//! The catalog of games and the rules its content must satisfy.
//!
//! Reading the games file, parsing its JSON and asking the file system about
//! images happen outside the library; the catalog receives the parsed games
//! and, for every image a question names, what the file system reported.
use vstd::prelude::*;
use crate::model::{Choice, ChoiceView, Game, GamesFile, GameView, Question, QuestionView};
use crate::text::{blank, chars_of, is_blank, join3, same_text, string_from_chars};

verus! {

// ---------------------------------------------------------------------------
// Image paths (std::path)
// ---------------------------------------------------------------------------

/// Whether `Path::is_absolute` holds of the path `s`.
pub uninterp spec fn is_absolute_path(s: Seq<char>) -> bool;

/// For each component `Path::components` yields for `s`, in order, whether
/// it is a parent-directory (`..`) component.
pub uninterp spec fn parent_flags(s: Seq<char>) -> Seq<bool>;

/// Some component of the path `s` is a parent-directory (`..`) component.
pub open spec fn has_parent_component(s: Seq<char>) -> bool {
    exists|k: int| 0 <= k < parent_flags(s).len() && parent_flags(s)[k]
}

/// `Path::extension` of `s`, when it is valid Unicode (`to_str`).
pub uninterp spec fn path_extension(s: Seq<char>) -> Option<Seq<char>>;

/// Trusted: `Path::new(s).is_absolute()`; named `is_absolute_path`.
#[verifier::external_body]
fn path_is_absolute(s: &str) -> (r: bool)
    ensures
        r == is_absolute_path(s@),
{
    std::path::Path::new(s).is_absolute()
}

/// Trusted: `Path::new(s).components()`, each component mapped to whether
/// it is `Component::ParentDir`; named `parent_flags`.
#[verifier::external_body]
fn component_flags(s: &str) -> (r: Vec<bool>)
    ensures
        r@ == parent_flags(s@),
{
    std::path::Path::new(s).components().map(|part| matches!(part, std::path::Component::ParentDir)).collect()
}

/// Whether the path `s` has a parent-directory (`..`) component.
fn path_has_parent(s: &str) -> (r: bool)
    ensures
        r == has_parent_component(s@),
{
    let flags = component_flags(s);
    let mut k: usize = 0;
    while k < flags.len()
        invariant
            k <= flags@.len(),
            flags@ == parent_flags(s@),
            forall|j: int| 0 <= j < k ==> !flags@[j],
        decreases flags@.len() - k,
    {
        if flags[k] {
            return true;
        }
        k = k + 1;
    }
    false
}

/// Trusted: `Path::new(s).extension()` as a string; named `path_extension`.
#[verifier::external_body]
fn extension_of(s: &str) -> (r: Option<String>)
    ensures
        r.deep_view() == path_extension(s@),
{
    std::path::Path::new(s).extension().and_then(|ext| ext.to_str()).map(|ext| ext.to_string())
}

/// `s` with ASCII letters lower-cased (`str::to_ascii_lowercase`).
pub open spec fn ascii_lower(s: Seq<char>) -> Seq<char> {
    Seq::new(
        s.len(),
        |i: int|
            if 'A' <= s[i] && s[i] <= 'Z' {
                ((s[i] as u32) + 32) as char
            } else {
                s[i]
            },
    )
}

fn ascii_lowercase(v: &Vec<char>) -> (r: Vec<char>)
    ensures
        r@ == ascii_lower(v@),
{
    let mut r: Vec<char> = Vec::new();
    let mut i: usize = 0;
    while i < v.len()
        invariant
            i <= v@.len(),
            r@ == ascii_lower(v@).take(i as int),
        decreases v@.len() - i,
    {
        let c = v[i];
        let d = if 'A' <= c && c <= 'Z' {
            char_from_ascii((c as u32) + 32)
        } else {
            c
        };
        r.push(d);
        assert(r@ =~= ascii_lower(v@).take(i + 1));
        i = i + 1;
    }
    assert(ascii_lower(v@).take(v@.len() as int) =~= ascii_lower(v@));
    r
}

fn char_from_ascii(code: u32) -> (c: char)
    requires
        code < 128,
    ensures
        c == code as char,
{
    let b: u8 = code as u8;
    b as char
}

/// The image file types the catalog accepts, by lower-cased extension.
pub open spec fn allowed_extension(ext: Seq<char>) -> bool {
    ext == "png"@ || ext == "jpg"@ || ext == "jpeg"@ || ext == "webp"@ || ext == "gif"@
}

fn is_allowed_extension(ext: &str) -> (r: bool)
    ensures
        r == allowed_extension(ext@),
{
    same_text(ext, "png") || same_text(ext, "jpg") || same_text(ext, "jpeg") || same_text(
        ext,
        "webp",
    ) || same_text(ext, "gif")
}

/// The largest image file accepted: 10 MiB.
pub const MAX_IMAGE_BYTES: u64 = 10 * 1024 * 1024;

// ---------------------------------------------------------------------------
// What the file system reported about images
// ---------------------------------------------------------------------------

/// What the file system reported about the file an image name points to.
#[derive(Debug)]
pub struct ImageFacts {
    /// The image name as the question gives it.
    pub name: String,
    /// The media root joined with the name, as the path is displayed.
    pub full_path: String,
    /// Whether the joined path could be canonicalised.
    pub found: bool,
    /// Whether the canonical path lies inside the canonical media root.
    pub inside_root: bool,
    /// Whether the file's metadata could be read.
    pub metadata_found: bool,
    /// Whether it is a regular file.
    pub is_file: bool,
    /// Its length in bytes.
    pub len: u64,
}

pub struct ImageFactsView {
    pub name: Seq<char>,
    pub full_path: Seq<char>,
    pub found: bool,
    pub inside_root: bool,
    pub metadata_found: bool,
    pub is_file: bool,
    pub len: u64,
}

impl View for ImageFacts {
    type V = ImageFactsView;

    open spec fn view(&self) -> ImageFactsView {
        ImageFactsView {
            name: self.name@,
            full_path: self.full_path@,
            found: self.found,
            inside_root: self.inside_root,
            metadata_found: self.metadata_found,
            is_file: self.is_file,
            len: self.len,
        }
    }
}

impl DeepView for ImageFacts {
    type V = ImageFactsView;

    open spec fn deep_view(&self) -> ImageFactsView {
        self@
    }
}

/// What the file system reported about the media directory and the images.
#[derive(Debug)]
pub struct MediaFacts {
    /// Whether the media directory could be canonicalised.
    pub root_found: bool,
    pub images: Vec<ImageFacts>,
}

pub struct MediaFactsView {
    pub root_found: bool,
    pub images: Seq<ImageFactsView>,
}

impl View for MediaFacts {
    type V = MediaFactsView;

    open spec fn view(&self) -> MediaFactsView {
        MediaFactsView { root_found: self.root_found, images: self.images.deep_view() }
    }
}

/// The first report about image `name`.
pub open spec fn facts_for(images: Seq<ImageFactsView>, name: Seq<char>) -> Option<ImageFactsView>
    decreases images.len(),
{
    if images.len() == 0 {
        None
    } else {
        match facts_for(images.drop_last(), name) {
            Some(f) => Some(f),
            None => if images.last().name == name {
                Some(images.last())
            } else {
                None
            },
        }
    }
}

fn find_facts<'a>(images: &'a Vec<ImageFacts>, name: &str) -> (r: Option<&'a ImageFacts>)
    ensures
        r matches Some(f) ==> facts_for(images.deep_view(), name@) == Some(f@),
        r is None ==> facts_for(images.deep_view(), name@) is None,
{
    let mut i: usize = 0;
    while i < images.len()
        invariant
            i <= images@.len(),
            facts_for(images.deep_view().take(i as int), name@) is None,
        decreases images@.len() - i,
    {
        assert(images.deep_view().take(i + 1).drop_last() =~= images.deep_view().take(i as int));
        if same_text(images[i].name.as_str(), name) {
            proof {
                lemma_facts_prefix(images.deep_view(), (i + 1) as int, name@);
            }
            return Some(&images[i]);
        }
        i = i + 1;
    }
    assert(images.deep_view().take(images@.len() as int) =~= images.deep_view());
    None
}

proof fn lemma_facts_prefix(images: Seq<ImageFactsView>, n: int, name: Seq<char>)
    requires
        0 <= n <= images.len(),
        facts_for(images.take(n), name) is Some,
    ensures
        facts_for(images, name) == facts_for(images.take(n), name),
    decreases images.len() - n,
{
    if n < images.len() {
        assert(images.take(n + 1).drop_last() =~= images.take(n));
        lemma_facts_prefix(images, n + 1, name);
    } else {
        assert(images.take(n) =~= images);
    }
}

// ---------------------------------------------------------------------------
// The rules
// ---------------------------------------------------------------------------

/// `"question " + id + rest`.
pub open spec fn question_message(id: Seq<char>, rest: Seq<char>) -> Seq<char> {
    "question "@ + id + rest
}

/// The first rule that a question's prompt and image break, if any.
pub open spec fn common_error(
    id: Seq<char>,
    prompt: Seq<char>,
    image: Option<Seq<char>>,
    image_alt: Option<Seq<char>>,
    media_root: Seq<char>,
    media: MediaFactsView,
) -> Option<Seq<char>> {
    if is_blank(prompt) {
        Some(question_message(id, " needs a prompt"@))
    } else if image is None {
        None
    } else {
        let name = image->0;
        if image_alt is None || is_blank(image_alt->0) {
            Some(question_message(id, " must provide imageAlt when image is present"@))
        } else if is_absolute_path(name) || has_parent_component(name) {
            Some(question_message(id, " image path must stay inside the media directory"@))
        } else if !allowed_extension(
            ascii_lower(
                match path_extension(name) {
                    Some(e) => e,
                    None => seq![],
                },
            ),
        ) {
            Some(question_message(id, " image must be PNG, JPEG, WebP, or GIF"@))
        } else if !media.root_found {
            Some("media directory "@ + media_root + " was not found"@)
        } else {
            let f = facts_for(media.images, name)->0;
            if !f.found {
                Some(question_message(id, " image "@ + f.full_path + " was not found"@))
            } else if !f.inside_root {
                Some(question_message(id, " image path must stay inside the media directory"@))
            } else if !f.metadata_found {
                Some(question_message(id, " image "@ + f.full_path + " was not found"@))
            } else if !f.is_file || f.len > MAX_IMAGE_BYTES {
                Some(question_message(id, " image must be a file no larger than 10 MiB"@))
            } else {
                None
            }
        }
    }
}

/// The option at `k` is blank, or repeats the identifier of an earlier option.
pub open spec fn bad_option(options: Seq<ChoiceView>, k: int) -> bool {
    is_blank(options[k].id) || is_blank(options[k].text) || exists|j: int|
        0 <= j < k && options[j].id == options[k].id
}

/// The first rule that question `k` of a game breaks, if any.
pub open spec fn question_error(
    game_id: Seq<char>,
    questions: Seq<QuestionView>,
    k: int,
    media_root: Seq<char>,
    media: MediaFactsView,
) -> Option<Seq<char>> {
    let q = questions[k];
    let id = q.id();
    if is_blank(id) || exists|j: int| 0 <= j < k && questions[j].id() == id {
        Some("question IDs in game "@ + game_id + " must be non-empty and unique"@)
    } else if !(5 <= q.time_limit_seconds() <= 300) {
        Some(question_message(id, " timeLimitSeconds must be between 5 and 300"@))
    } else if q.reading_time_seconds() > 60 {
        Some(question_message(id, " readingTimeSeconds must be between 0 and 60"@))
    } else {
        match common_error(id, q.prompt(), q.image(), q.image_alt(), media_root, media) {
            Some(e) => Some(e),
            None => match q {
                QuestionView::MultipleChoice { options, correct_option_id, .. } => if !(2
                    <= options.len() <= 4) {
                    Some(question_message(id, " must have 2 to 4 options"@))
                } else if exists|o: int| 0 <= o < options.len() && bad_option(options, o) {
                    Some(question_message(id, " has an empty or duplicate option"@))
                } else if !(exists|o: int|
                    0 <= o < options.len() && options[o].id == correct_option_id) {
                    Some(question_message(id, " correctOptionId does not name an option"@))
                } else {
                    None
                },
                QuestionView::FreeText { accepted_answers, .. } => if accepted_answers.len() == 0
                    || exists|a: int| 0 <= a < accepted_answers.len() && is_blank(accepted_answers[a]) {
                    Some(question_message(id, " needs non-empty acceptedAnswers"@))
                } else {
                    None
                },
            },
        }
    }
}

/// The first error among the first `n` questions of a game, in order.
pub open spec fn questions_error(
    game_id: Seq<char>,
    questions: Seq<QuestionView>,
    n: nat,
    media_root: Seq<char>,
    media: MediaFactsView,
) -> Option<Seq<char>>
    decreases n,
{
    if n == 0 {
        None
    } else {
        match questions_error(game_id, questions, (n - 1) as nat, media_root, media) {
            Some(e) => Some(e),
            None => question_error(game_id, questions, n - 1, media_root, media),
        }
    }
}

/// The first rule that game `k` of the list breaks, if any.
pub open spec fn game_error(
    games: Seq<GameView>,
    k: int,
    media_root: Seq<char>,
    media: MediaFactsView,
) -> Option<Seq<char>> {
    let g = games[k];
    if is_blank(g.id) || exists|j: int| 0 <= j < k && games[j].id == g.id {
        Some("game IDs must be non-empty and unique (problem: "@ + debug_text(g.id) + ")"@)
    } else if is_blank(g.title) || g.questions.len() == 0 {
        Some("game "@ + g.id + " needs a title and at least one question"@)
    } else {
        questions_error(g.id, g.questions, g.questions.len(), media_root, media)
    }
}

/// The first error among the first `n` games, in order.
pub open spec fn games_error(
    games: Seq<GameView>,
    n: nat,
    media_root: Seq<char>,
    media: MediaFactsView,
) -> Option<Seq<char>>
    decreases n,
{
    if n == 0 {
        None
    } else {
        match games_error(games, (n - 1) as nat, media_root, media) {
            Some(e) => Some(e),
            None => game_error(games, n - 1, media_root, media),
        }
    }
}

proof fn lemma_questions_error_stable(
    game_id: Seq<char>,
    questions: Seq<QuestionView>,
    m: nat,
    n: nat,
    media_root: Seq<char>,
    media: MediaFactsView,
)
    requires
        m <= n,
        questions_error(game_id, questions, m, media_root, media) is Some,
    ensures
        questions_error(game_id, questions, n, media_root, media) == questions_error(
            game_id,
            questions,
            m,
            media_root,
            media,
        ),
    decreases n - m,
{
    if m < n {
        lemma_questions_error_stable(game_id, questions, m, (n - 1) as nat, media_root, media);
    }
}

proof fn lemma_games_error_stable(
    games: Seq<GameView>,
    m: nat,
    n: nat,
    media_root: Seq<char>,
    media: MediaFactsView,
)
    requires
        m <= n,
        games_error(games, m, media_root, media) is Some,
    ensures
        games_error(games, n, media_root, media) == games_error(games, m, media_root, media),
    decreases n - m,
{
    if m < n {
        lemma_games_error_stable(games, m, (n - 1) as nat, media_root, media);
    }
}

/// When none of the first `n` questions breaks a rule, question `k` (below `n`) breaks none.
pub proof fn lemma_questions_ok(
    game_id: Seq<char>,
    questions: Seq<QuestionView>,
    n: nat,
    media_root: Seq<char>,
    media: MediaFactsView,
    k: int,
)
    requires
        questions_error(game_id, questions, n, media_root, media) is None,
        0 <= k < n,
    ensures
        question_error(game_id, questions, k, media_root, media) is None,
    decreases n,
{
    if k < n - 1 {
        lemma_questions_ok(game_id, questions, (n - 1) as nat, media_root, media, k);
    }
}

/// When none of the first `n` games breaks a rule, game `k` (below `n`) breaks none.
pub proof fn lemma_games_ok(
    games: Seq<GameView>,
    n: nat,
    media_root: Seq<char>,
    media: MediaFactsView,
    k: int,
)
    requires
        games_error(games, n, media_root, media) is None,
        0 <= k < n,
    ensures
        game_error(games, k, media_root, media) is None,
    decreases n,
{
    if k < n - 1 {
        lemma_games_ok(games, (n - 1) as nat, media_root, media, k);
    }
}

/// A question with a prompt and an image breaks no rule exactly when the
/// image has non-blank alt text, its path is relative with no `..`
/// component, its extension (ASCII letters lower-cased) is `png`, `jpg`,
/// `jpeg`, `webp` or `gif`, the media directory exists, and the image is a
/// regular file of at most 10 MiB (10485760 bytes) found inside it (as
/// the file system's report about the image tells).
pub proof fn lemma_image_rules(
    id: Seq<char>,
    prompt: Seq<char>,
    name: Seq<char>,
    image_alt: Option<Seq<char>>,
    media_root: Seq<char>,
    media: MediaFactsView,
)
    requires
        !is_blank(prompt),
        facts_for(media.images, name) is Some,
    ensures
        common_error(id, prompt, Some(name), image_alt, media_root, media) is None <==> ({
            let ext = ascii_lower(
                match path_extension(name) {
                    Some(e) => e,
                    None => seq![],
                },
            );
            &&& image_alt matches Some(alt) && !is_blank(alt)
            &&& !is_absolute_path(name)
            &&& !has_parent_component(name)
            &&& (ext == "png"@ || ext == "jpg"@ || ext == "jpeg"@ || ext == "webp"@ || ext == "gif"@)
            &&& media.root_found
            &&& facts_for(media.images, name) matches Some(f) && f.found && f.inside_root
                && f.metadata_found && f.is_file && f.len <= 10485760
        }),
{
}

/// The accepted image types are exactly PNG, JPEG, WebP and GIF, by
/// extension in any letter case: for a question whose prompt and alt text
/// are given and whose image path stays inside the media directory, naming
/// a regular file of at most 10 MiB found inside the media root, the
/// question breaks no rule if and only if the image's extension is `png`,
/// `jpg`, `jpeg`, `webp` or `gif` once ASCII letters are lower-cased, and
/// otherwise breaks the image-type rule.
pub proof fn lemma_image_types(
    id: Seq<char>,
    prompt: Seq<char>,
    name: Seq<char>,
    alt: Seq<char>,
    media_root: Seq<char>,
    media: MediaFactsView,
)
    requires
        !is_blank(prompt),
        !is_blank(alt),
        !is_absolute_path(name),
        !has_parent_component(name),
        media.root_found,
        facts_for(media.images, name) matches Some(f) && f.found && f.inside_root
            && f.metadata_found && f.is_file && f.len <= 10 * 1024 * 1024,
    ensures
        ({
            let ext = ascii_lower(
                match path_extension(name) {
                    Some(e) => e,
                    None => seq![],
                },
            );
            let err = common_error(id, prompt, Some(name), Some(alt), media_root, media);
            &&& err is None <==> (ext == "png"@ || ext == "jpg"@ || ext == "jpeg"@ || ext
                == "webp"@ || ext == "gif"@)
            &&& err is Some ==> err == Some(
                question_message(id, " image must be PNG, JPEG, WebP, or GIF"@),
            )
        }),
{
}

/// Why a list of games is not a valid catalog, or `None` when it is.
pub open spec fn validation_error(
    games: Seq<GameView>,
    media_root: Seq<char>,
    media: MediaFactsView,
) -> Option<Seq<char>> {
    if games.len() == 0 {
        Some("games must contain at least one game"@)
    } else {
        games_error(games, games.len(), media_root, media)
    }
}

/// Every image a question names has a report.
pub open spec fn media_covers(games: Seq<GameView>, media: MediaFactsView) -> bool {
    forall|g: int, q: int|
        0 <= g < games.len() && 0 <= q < games[g].questions.len()
            && (#[trigger] games[g].questions[q]).image() is Some ==> facts_for(
            media.images,
            games[g].questions[q].image()->0,
        ) is Some
}

/// The text `{:?}` writes for a string: quoted, with escapes.
pub uninterp spec fn debug_text(s: Seq<char>) -> Seq<char>;

/// Trusted: `format!("{:?}", s)` for a `str`; named `debug_text`.
#[verifier::external_body]
fn debug_string(s: &str) -> (r: String)
    ensures
        r@ == debug_text(s@),
{
    format!("{:?}", s)
}

fn question_err(id: &str, rest: &str) -> (r: String)
    ensures
        r@ == question_message(id@, rest@),
{
    join3("question ", id, rest)
}

fn image_err(id: &str, full_path: &str, rest: &str) -> (r: String)
    ensures
        r@ == question_message(id@, " image "@ + full_path@ + rest@),
{
    let tail = join3(" image ", full_path, rest);
    let r = join3("question ", id, tail.as_str());
    assert(r@ =~= question_message(id@, " image "@ + full_path@ + rest@));
    r
}

fn validate_common(
    id: &str,
    prompt: &str,
    image: Option<&str>,
    image_alt: Option<&str>,
    media_root: &str,
    media: &MediaFacts,
) -> (r: Result<(), String>)
    requires
        image matches Some(name) ==> facts_for(media@.images, name@) is Some,
    ensures
        r matches Err(e) ==> common_error(
            id@,
            prompt@,
            image.deep_view(),
            image_alt.deep_view(),
            media_root@,
            media@,
        ) == Some(e@),
        r is Ok ==> common_error(
            id@,
            prompt@,
            image.deep_view(),
            image_alt.deep_view(),
            media_root@,
            media@,
        ) is None,
{
    if blank(prompt) {
        return Err(question_err(id, " needs a prompt"));
    }
    let name = match image {
        None => {
            return Ok(());
        },
        Some(name) => name,
    };
    let alt_missing = match image_alt {
        None => true,
        Some(alt) => blank(alt),
    };
    if alt_missing {
        return Err(question_err(id, " must provide imageAlt when image is present"));
    }
    if path_is_absolute(name) || path_has_parent(name) {
        return Err(question_err(id, " image path must stay inside the media directory"));
    }
    let ext: Vec<char> = match extension_of(name) {
        Some(e) => chars_of(e.as_str()),
        None => Vec::new(),
    };
    let lowered = string_from_chars(&ascii_lowercase(&ext));
    if !is_allowed_extension(lowered.as_str()) {
        return Err(question_err(id, " image must be PNG, JPEG, WebP, or GIF"));
    }
    if !media.root_found {
        return Err(join3("media directory ", media_root, " was not found"));
    }
    let facts = match find_facts(&media.images, name) {
        Some(f) => f,
        None => {
            return Err(question_err(id, " image was not found"));
        },
    };
    if !facts.found {
        return Err(image_err(id, facts.full_path.as_str(), " was not found"));
    }
    if !facts.inside_root {
        return Err(question_err(id, " image path must stay inside the media directory"));
    }
    if !facts.metadata_found {
        return Err(image_err(id, facts.full_path.as_str(), " was not found"));
    }
    if !facts.is_file || facts.len > MAX_IMAGE_BYTES {
        return Err(question_err(id, " image must be a file no larger than 10 MiB"));
    }
    Ok(())
}

fn option_ok(options: &Vec<Choice>, k: usize) -> (r: bool)
    requires
        k < options@.len(),
    ensures
        r == !bad_option(options.deep_view(), k as int),
{
    let ghost os = options.deep_view();
    let o = &options[k];
    assert(os[k as int] == o@);
    if blank(o.id.as_str()) || blank(o.text.as_str()) {
        return false;
    }
    let mut j: usize = 0;
    while j < k
        invariant
            k < options@.len(),
            os == options.deep_view(),
            os[k as int] == o@,
            j <= k,
            forall|q: int| 0 <= q < j ==> os[q].id != os[k as int].id,
        decreases k - j,
    {
        assert(os[j as int] == options@[j as int]@);
        if same_text(options[j].id.as_str(), o.id.as_str()) {
            assert(os[j as int].id == os[k as int].id);
            return false;
        }
        j = j + 1;
    }
    true
}

fn check_options(id: &str, options: &Vec<Choice>, correct_option_id: &str) -> (r: Result<
    (),
    String,
>)
    ensures
        ({
            let os = options.deep_view();
            let expected: Option<Seq<char>> = if !(2 <= os.len() <= 4) {
                Some(question_message(id@, " must have 2 to 4 options"@))
            } else if exists|o: int| 0 <= o < os.len() && bad_option(os, o) {
                Some(question_message(id@, " has an empty or duplicate option"@))
            } else if !(exists|o: int| 0 <= o < os.len() && os[o].id == correct_option_id@) {
                Some(question_message(id@, " correctOptionId does not name an option"@))
            } else {
                None
            };
            &&& r matches Err(e) ==> expected == Some(e@)
            &&& r is Ok ==> expected is None
        }),
{
    let ghost os = options.deep_view();
    if options.len() < 2 || options.len() > 4 {
        return Err(question_err(id, " must have 2 to 4 options"));
    }
    let mut k: usize = 0;
    while k < options.len()
        invariant
            k <= os.len(),
            2 <= os.len() <= 4,
            os == options.deep_view(),
            forall|o: int| 0 <= o < k ==> !bad_option(os, o),
        decreases os.len() - k,
    {
        if !option_ok(options, k) {
            assert(bad_option(os, k as int));
            return Err(question_err(id, " has an empty or duplicate option"));
        }
        k = k + 1;
    }
    let mut c: usize = 0;
    while c < options.len()
        invariant
            c <= os.len(),
            2 <= os.len() <= 4,
            forall|o: int| 0 <= o < os.len() ==> !bad_option(os, o),
            os == options.deep_view(),
            forall|o: int| 0 <= o < c ==> os[o].id != correct_option_id@,
        decreases os.len() - c,
    {
        assert(os[c as int] == options@[c as int]@);
        if same_text(options[c].id.as_str(), correct_option_id) {
            assert(os[c as int].id == correct_option_id@);
            return Ok(());
        }
        c = c + 1;
    }
    Err(question_err(id, " correctOptionId does not name an option"))
}

fn check_accepted(id: &str, accepted: &Vec<String>) -> (r: Result<(), String>)
    ensures
        ({
            let a = accepted.deep_view();
            let expected: Option<Seq<char>> = if a.len() == 0 || exists|k: int|
                0 <= k < a.len() && is_blank(a[k]) {
                Some(question_message(id@, " needs non-empty acceptedAnswers"@))
            } else {
                None
            };
            &&& r matches Err(e) ==> expected == Some(e@)
            &&& r is Ok ==> expected is None
        }),
{
    let ghost a = accepted.deep_view();
    if accepted.len() == 0 {
        return Err(question_err(id, " needs non-empty acceptedAnswers"));
    }
    let mut k: usize = 0;
    while k < accepted.len()
        invariant
            k <= a.len(),
            a == accepted.deep_view(),
            forall|q: int| 0 <= q < k ==> !is_blank(a[q]),
        decreases a.len() - k,
    {
        assert(a[k as int] == accepted@[k as int]@);
        if blank(accepted[k].as_str()) {
            assert(is_blank(a[k as int]));
            return Err(question_err(id, " needs non-empty acceptedAnswers"));
        }
        k = k + 1;
    }
    Ok(())
}

fn check_question(
    game_id: &str,
    questions: &Vec<Question>,
    k: usize,
    media_root: &str,
    media: &MediaFacts,
) -> (r: Result<(), String>)
    requires
        k < questions@.len(),
        questions.deep_view()[k as int].image() is Some ==> facts_for(
            media@.images,
            questions.deep_view()[k as int].image()->0,
        ) is Some,
    ensures
        r matches Err(e) ==> question_error(
            game_id@,
            questions.deep_view(),
            k as int,
            media_root@,
            media@,
        ) == Some(e@),
        r is Ok ==> question_error(
            game_id@,
            questions.deep_view(),
            k as int,
            media_root@,
            media@,
        ) is None,
{
    let ghost qs = questions.deep_view();
    let q = &questions[k];
    assert(qs[k as int] == q@);
    let id = q.id();
    if blank(id) {
        return Err(join3("question IDs in game ", game_id, " must be non-empty and unique"));
    }
    let mut j: usize = 0;
    while j < k
        invariant
            k < qs.len(),
            qs == questions.deep_view(),
            j <= k,
            id@ == qs[k as int].id(),
            forall|p: int| 0 <= p < j ==> qs[p].id() != id@,
        decreases k - j,
    {
        assert(qs[j as int] == questions@[j as int]@);
        if same_text(questions[j].id(), id) {
            assert(qs[j as int].id() == qs[k as int].id());
            return Err(join3("question IDs in game ", game_id, " must be non-empty and unique"));
        }
        j = j + 1;
    }
    let limit = q.time_limit_seconds();
    if limit < 5 || limit > 300 {
        return Err(question_err(id, " timeLimitSeconds must be between 5 and 300"));
    }
    if q.reading_time_seconds() > 60 {
        return Err(question_err(id, " readingTimeSeconds must be between 0 and 60"));
    }
    let common = validate_common(id, q.prompt(), q.image(), q.image_alt(), media_root, media);
    match common {
        Err(e) => {
            return Err(e);
        },
        Ok(()) => {},
    }
    match q {
        Question::MultipleChoice { options, correct_option_id, .. } => check_options(
            id,
            options,
            correct_option_id.as_str(),
        ),
        Question::FreeText { accepted_answers, .. } => check_accepted(id, accepted_answers),
    }
}

fn check_game(games: &Vec<Game>, k: usize, media_root: &str, media: &MediaFacts) -> (r: Result<
    (),
    String,
>)
    requires
        k < games@.len(),
        media_covers(games.deep_view(), media@),
    ensures
        r matches Err(e) ==> game_error(games.deep_view(), k as int, media_root@, media@) == Some(
            e@,
        ),
        r is Ok ==> game_error(games.deep_view(), k as int, media_root@, media@) is None,
{
    let ghost gs = games.deep_view();
    let g = &games[k];
    assert(gs[k as int] == g@);
    let mut duplicate = blank(g.id.as_str());
    let mut j: usize = 0;
    while j < k && !duplicate
        invariant
            k < gs.len(),
            gs == games.deep_view(),
            gs[k as int] == g@,
            j <= k,
            duplicate == (is_blank(gs[k as int].id) || exists|p: int|
                0 <= p < j && gs[p].id == gs[k as int].id),
        decreases k - j,
    {
        assert(gs[j as int] == games@[j as int]@);
        if same_text(games[j].id.as_str(), g.id.as_str()) {
            assert(gs[j as int].id == gs[k as int].id);
            duplicate = true;
        }
        j = j + 1;
    }
    if duplicate {
        let quoted = debug_string(g.id.as_str());
        return Err(join3("game IDs must be non-empty and unique (problem: ", quoted.as_str(), ")"));
    }
    if blank(g.title.as_str()) || g.questions.len() == 0 {
        return Err(join3("game ", g.id.as_str(), " needs a title and at least one question"));
    }
    let ghost qs = g.questions.deep_view();
    let mut q: usize = 0;
    while q < g.questions.len()
        invariant
            k < gs.len(),
            gs == games.deep_view(),
            qs == g.questions.deep_view(),
            qs == gs[k as int].questions,
            gs[k as int] == g@,
            game_error(gs, k as int, media_root@, media@) == questions_error(
                g.id@,
                qs,
                qs.len(),
                media_root@,
                media@,
            ),
            media_covers(gs, media@),
            q <= qs.len(),
            questions_error(g.id@, qs, q as nat, media_root@, media@) is None,
        decreases qs.len() - q,
    {
        proof {
            assert(qs[q as int] == gs[k as int].questions[q as int]);
        }
        match check_question(g.id.as_str(), &g.questions, q, media_root, media) {
            Err(e) => {
                proof {
                    lemma_questions_error_stable(g.id@, qs, (q + 1) as nat, qs.len(), media_root@, media@);
                }
                return Err(e);
            },
            Ok(()) => {},
        }
        q = q + 1;
    }
    Ok(())
}

fn validate_games(games: &Vec<Game>, media_root: &str, media: &MediaFacts) -> (r: Result<
    (),
    String,
>)
    requires
        media_covers(games.deep_view(), media@),
    ensures
        r matches Err(e) ==> validation_error(games.deep_view(), media_root@, media@) == Some(e@),
        r is Ok ==> validation_error(games.deep_view(), media_root@, media@) is None,
{
    if games.len() == 0 {
        return Err(String::from_str("games must contain at least one game"));
    }
    let mut k: usize = 0;
    while k < games.len()
        invariant
            k <= games@.len(),
            media_covers(games.deep_view(), media@),
            games_error(games.deep_view(), k as nat, media_root@, media@) is None,
        decreases games@.len() - k,
    {
        match check_game(games, k, media_root, media) {
            Err(e) => {
                proof {
                    lemma_games_error_stable(games.deep_view(), (k + 1) as nat, games@.len(), media_root@, media@);
                }
                return Err(e);
            },
            Ok(()) => {},
        }
        k = k + 1;
    }
    Ok(())
}

// ---------------------------------------------------------------------------
// The catalog
// ---------------------------------------------------------------------------

/// The games on offer, with where they were read from.
#[derive(Debug)]
pub struct Catalog {
    pub games: Vec<Game>,
    /// The games file, as its path is displayed.
    pub file_path: String,
    /// The directory images are served from, as its path is displayed.
    pub media_root: String,
}

pub struct CatalogView {
    pub games: Seq<GameView>,
    pub file_path: Seq<char>,
    pub media_root: Seq<char>,
}

impl View for Catalog {
    type V = CatalogView;

    open spec fn view(&self) -> CatalogView {
        CatalogView {
            games: self.games.deep_view(),
            file_path: self.file_path@,
            media_root: self.media_root@,
        }
    }
}

/// The position of the first game with identifier `id`.
pub open spec fn game_index(games: Seq<GameView>, id: Seq<char>) -> Option<int>
    decreases games.len(),
{
    if games.len() == 0 {
        None
    } else {
        match game_index(games.drop_last(), id) {
            Some(i) => Some(i),
            None => if games.last().id == id {
                Some(games.len() - 1)
            } else {
                None
            },
        }
    }
}

/// Where the first game with identifier `id` stands: it has that
/// identifier and no earlier game has.
pub proof fn lemma_game_index(games: Seq<GameView>, id: Seq<char>)
    ensures
        game_index(games, id) matches Some(i) ==> 0 <= i < games.len() && games[i].id == id
            && forall|j: int| 0 <= j < i ==> games[j].id != id,
        game_index(games, id) is None ==> forall|j: int| 0 <= j < games.len() ==> games[j].id != id,
    decreases games.len(),
{
    if games.len() > 0 {
        lemma_game_index(games.drop_last(), id);
        assert forall|j: int| 0 <= j < games.len() - 1 implies games.drop_last()[j] == games[j] by {}
    }
}

proof fn lemma_game_index_prefix(games: Seq<GameView>, n: int, id: Seq<char>)
    requires
        0 <= n <= games.len(),
        game_index(games.take(n), id) is Some,
    ensures
        game_index(games, id) == game_index(games.take(n), id),
    decreases games.len() - n,
{
    if n < games.len() {
        assert(games.take(n + 1).drop_last() =~= games.take(n));
        lemma_game_index_prefix(games, n + 1, id);
    } else {
        assert(games.take(n) =~= games);
    }
}

/// The catalog the content of a games file gives: the games when they
/// satisfy every rule, otherwise the first rule broken. A failure to read or
/// parse the file is passed on as it is.
pub open spec fn loaded(
    contents: Result<Seq<GameView>, Seq<char>>,
    file_path: Seq<char>,
    media_root: Seq<char>,
    media: MediaFactsView,
) -> Result<CatalogView, Seq<char>> {
    match contents {
        Err(e) => Err(e),
        Ok(games) => match validation_error(games, media_root, media) {
            Some(e) => Err(e),
            None => Ok(CatalogView { games, file_path, media_root }),
        },
    }
}

/// The view of a parse result.
pub open spec fn contents_view(contents: Result<GamesFile, String>) -> Result<Seq<GameView>, Seq<char>> {
    match contents {
        Ok(file) => Ok(file@),
        Err(e) => Err(e@),
    }
}

/// What a file's content satisfies for the media reports to cover it.
pub open spec fn contents_covered(contents: Result<Seq<GameView>, Seq<char>>, media: MediaFactsView) -> bool {
    contents matches Ok(games) ==> media_covers(games, media)
}

/// The catalog result's view.
pub open spec fn catalog_result_view(r: Result<Catalog, String>) -> Result<CatalogView, Seq<char>> {
    match r {
        Ok(c) => Ok(c@),
        Err(e) => Err(e@),
    }
}

impl Catalog {
    /// The catalog read from the games file at `file_path`, given the file's
    /// parsed content (or why it could not be read or parsed) and the file
    /// system's reports on the images it names.
    pub fn load(
        contents: Result<GamesFile, String>,
        file_path: String,
        media_root: String,
        media: &MediaFacts,
    ) -> (r: Result<Catalog, String>)
        requires
            contents_covered(contents_view(contents), media@),
        ensures
            catalog_result_view(r) == loaded(contents_view(contents), file_path@, media_root@, media@),
    {
        match contents {
            Err(e) => Err(e),
            Ok(file) => {
                let games = file.games;
                match validate_games(&games, media_root.as_str(), media) {
                    Err(e) => Err(e),
                    Ok(()) => Ok(Catalog { games, file_path, media_root }),
                }
            },
        }
    }

    /// The catalog read again from the same file: its new content, the same
    /// file path and media directory.
    pub fn reload(&self, contents: Result<GamesFile, String>, media: &MediaFacts) -> (r: Result<
        Catalog,
        String,
    >)
        requires
            contents_covered(contents_view(contents), media@),
        ensures
            catalog_result_view(r) == loaded(
                contents_view(contents),
                self.file_path@,
                self.media_root@,
                media@,
            ),
    {
        Self::load(contents, self.file_path.clone(), self.media_root.clone(), media)
    }

    /// The first game with identifier `id`.
    pub fn game(&self, id: &str) -> (r: Option<&Game>)
        ensures
            r matches Some(g) ==> game_index(self@.games, id@) matches Some(i) && g@
                == self@.games[i],
            r is None ==> game_index(self@.games, id@) is None,
    {
        let mut i: usize = 0;
        while i < self.games.len()
            invariant
                i <= self.games@.len(),
                game_index(self.games.deep_view().take(i as int), id@) is None,
            decreases self.games@.len() - i,
        {
            assert(self.games.deep_view().take(i + 1).drop_last() =~= self.games.deep_view().take(
                i as int,
            ));
            if same_text(self.games[i].id.as_str(), id) {
                proof {
                    lemma_game_index_prefix(self.games.deep_view(), (i + 1) as int, id@);
                }
                return Some(&self.games[i]);
            }
            i = i + 1;
        }
        assert(self.games.deep_view().take(self.games@.len() as int) =~= self.games.deep_view());
        None
    }
}

} // verus!
