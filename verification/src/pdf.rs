//! The PDF dispatcher: holds an extracted document, caps its text for the
//! summarization request, builds that request, and reads the service's
//! answer. The byte transport, the text extraction call and the HTTP call
//! stay with the caller; every decision between them is made here.

use vstd::prelude::*;
use vstd::string::StringSliceAdditionalSpecFns;
use crate::chars::{all_ws, is_blank, spec_words, take_words};
use crate::json::{
    Json, JField, JsonV, view_json, view_items, view_fields, enc_json, spec_json_of, write_json,
    parse_json, jfield_lookup, find_field, lemma_view_items_len, lemma_view_items_index,
    lemma_view_fields_len, lemma_view_fields_index, dec_digits, push_u64,
};

verus! {

/// The cap on the text forwarded to the summarization service, in
/// whitespace-delimited words.
pub const MAX_WORDS_FOR_SUMMARY: usize = 500;

/// Why a document could not be summarized, one variant per failure cause.
#[derive(Debug)]
pub enum PdfError {
    /// The document's text layer is empty or whitespace-only.
    NoExtractableText,
    /// No credential was handed to the dispatcher.
    MissingApiKey,
    /// The text extractor rejected the document's bytes.
    ExtractionFailed(String),
    /// The request never reached the service.
    NetworkFailure(String),
    /// The service answered with a non-success status.
    HttpFailure(u16, String),
    /// The service's answer is not a well-formed completion document.
    MalformedResponse,
    /// The service answered with an empty candidate list.
    EmptyResult,
}

/// One extracted document on its way to a summary.
pub struct PdfContent {
    pub text: String,
    pub filename: String,
    pub size: usize,
}

/// The words of `s` joined by single spaces.
pub open spec fn join_words(ws: Seq<Seq<char>>) -> Seq<char>
    decreases ws.len(),
{
    if ws.len() == 0 {
        Seq::empty()
    } else if ws.len() == 1 {
        ws[0]
    } else {
        ws[0] + seq![' '] + join_words(ws.skip(1))
    }
}

/// The first `MAX_WORDS_FOR_SUMMARY` words of `s`, joined by single
/// spaces.
pub open spec fn limited_text(s: Seq<char>) -> Seq<char> {
    let ws = spec_words(s);
    join_words(
        if ws.len() <= MAX_WORDS_FOR_SUMMARY as nat {
            ws
        } else {
            ws.take(MAX_WORDS_FOR_SUMMARY as int)
        },
    )
}

proof fn lemma_join_snoc(ws: Seq<Seq<char>>, w: Seq<char>)
    ensures
        join_words(ws.push(w)) == if ws.len() == 0 {
            w
        } else {
            join_words(ws) + seq![' '] + w
        },
    decreases ws.len(),
{
    if ws.len() == 0 {
        assert(ws.push(w)[0] == w);
        assert(join_words(ws.push(w)) == w);
    } else if ws.len() == 1 {
        assert(ws.push(w)[0] == ws[0]);
        assert(ws.push(w).skip(1) =~= seq![w]);
        assert(join_words(ws.push(w).skip(1)) == w);
        assert(join_words(ws) == ws[0]);
    } else {
        assert(ws.push(w)[0] == ws[0]);
        assert(ws.push(w).skip(1) =~= ws.skip(1).push(w));
        lemma_join_snoc(ws.skip(1), w);
        assert(join_words(ws.push(w)) == ws[0] + seq![' '] + (join_words(ws.skip(1)) + seq![' ']
            + w));
        assert(ws[0] + seq![' '] + (join_words(ws.skip(1)) + seq![' '] + w) =~= (ws[0] + seq![' ']
            + join_words(ws.skip(1))) + seq![' '] + w);
    }
}

impl PdfContent {
    /// Holds an extracted text under the document's name; `size` is the
    /// text's length in bytes.
    pub fn new(text: String, filename: String) -> (r: Self)
        ensures
            r.text@ == text@,
            r.filename@ == filename@,
            r.size == vstd::utf8::encode_utf8(text@).len(),
    {
        let b = text.as_str().as_bytes();
        let size = b.len();
        proof {
            assert(b@ == vstd::utf8::encode_utf8(text@));
        }
        PdfContent { text, filename, size }
    }

    /// The plain rendering of the document: its name, its size in bytes,
    /// and its whole text.
    pub fn get_summary(&self) -> (r: String)
        ensures
            r@ == "Arquivo: "@ + self.filename@ + "\nTamanho: "@ + dec_digits(self.size as nat)
                + " bytes\n\nConteudo:\n"@ + self.text@ + "\n"@,
    {
        let mut out = String::from_str("Arquivo: ");
        out.append(self.filename.as_str());
        out.append("\nTamanho: ");
        push_u64(&mut out, self.size as u64);
        out.append(" bytes\n\nConteudo:\n");
        out.append(self.text.as_str());
        out.append("\n");
        out
    }

    /// The document's text capped to the first `MAX_WORDS_FOR_SUMMARY`
    /// whitespace-delimited words, joined by single spaces.
    #[verifier::loop_isolation(false)]
    pub fn get_limited_text(&self) -> (r: String)
        ensures
            r@ == limited_text(self.text@),
    {
        let words = take_words(self.text.as_str(), MAX_WORDS_FOR_SUMMARY);
        let ghost full = spec_words(self.text@);
        let ghost capped = if full.len() <= MAX_WORDS_FOR_SUMMARY as nat {
            full
        } else {
            full.take(MAX_WORDS_FOR_SUMMARY as int)
        };
        proof {
            assert(words@.len() == capped.len());
            assert forall|k: int| 0 <= k < capped.len() implies capped[k] == full[k] by {}
        }
        let mut out = String::new();
        let mut i: usize = 0;
        proof {
            assert(capped.take(0) =~= Seq::<Seq<char>>::empty());
        }
        while i < words.len()
            invariant
                i <= words@.len(),
                out@ == join_words(capped.take(i as int)),
            decreases words@.len() - i,
        {
            if i > 0 {
                out.push(' ');
            }
            out.append(words[i].as_str());
            proof {
                assert(capped.take(i + 1 as int) =~= capped.take(i as int).push(capped[i as int]));
                lemma_join_snoc(capped.take(i as int), capped[i as int]);
                assert(words@[i as int]@ == capped[i as int]);
                if i > 0 {
                    let ghost wi = capped[i as int];
                    assert(out@ =~= (join_words(capped.take(i as int)) + seq![' ']) + wi);
                    assert((join_words(capped.take(i as int)) + seq![' ']) + wi =~= (join_words(
                        capped.take(i as int),
                    ) + seq![' '] + wi));
                } else {
                    assert(out@ =~= capped[0]);
                }
            }
            i += 1;
        }
        proof {
            assert(capped.take(capped.len() as int) =~= capped);
        }
        out
    }
}

/// Holds an extracted text under the document's name.
pub fn process_pdf_content(content: String, filename: String) -> (r: PdfContent)
    ensures
        r.text@ == content@,
        r.filename@ == filename@,
        r.size == vstd::utf8::encode_utf8(content@).len(),
{
    PdfContent::new(content, filename)
}

/// Whether a usable credential is at hand: any non-empty key counts.
pub fn check_api_key(api_key: &str) -> (r: bool)
    ensures
        r == (api_key@.len() != 0),
{
    api_key.unicode_len() != 0
}

/// A short, maskable account of the credential: its first characters when
/// one is set, a plain complaint when none is.
pub fn get_api_key_status(api_key: &str) -> (r: String)
    ensures
        api_key@.len() == 0 ==> r@ == "API key nao encontrada ou vazia"@,
        api_key@.len() != 0 ==> r@ == "API key configurada: "@ + api_key@.take(
            if api_key@.len() <= 8 {
                api_key@.len() as int
            } else {
                8
            },
        ) + "..."@,
{
    let n = api_key.unicode_len();
    if n == 0 {
        return String::from_str("API key nao encontrada ou vazia");
    }
    let upto = if n <= 8 {
        n
    } else {
        8
    };
    let prefix = api_key.substring_char(0, upto);
    let mut out = String::from_str("API key configurada: ");
    out.append(prefix);
    out.append("...");
    out
}

/// The model the dispatcher asks for.
pub fn summary_model() -> (r: String)
    ensures
        r@ == "gpt-4o-mini"@,
{
    String::from_str("gpt-4o-mini")
}

/// Where the summarization service listens.
pub fn api_endpoint() -> (r: String)
    ensures
        r@ == "https://api.openai.com/v1/chat/completions"@,
{
    String::from_str("https://api.openai.com/v1/chat/completions")
}

/// The instruction placed before the capped text.
pub open spec fn spec_prompt(limited: Seq<char>) -> Seq<char> {
    "Resuma o seguinte texto em portugues, mantendo os pontos principais: "@ + limited
}

/// The request document sent to the service: the model, one user message
/// holding the prompt, and the completion cap.
pub open spec fn spec_request_body(limited: Seq<char>) -> JsonV {
    JsonV::Obj(
        seq![
            ("model"@, JsonV::Str("gpt-4o-mini"@)),
            (
                "messages"@,
                JsonV::Arr(
                    seq![
                        JsonV::Obj(
                            seq![
                                ("role"@, JsonV::Str("user"@)),
                                ("content"@, JsonV::Str(spec_prompt(limited))),
                            ],
                        ),
                    ],
                ),
            ),
            ("max_tokens"@, JsonV::Num(200)),
        ],
    )
}

/// The exact request text for a capped input.
pub fn build_summary_request(limited: &str) -> (r: String)
    ensures
        r@ == enc_json(spec_request_body(limited@)),
{
    broadcast use lemma_view_fields_len, lemma_view_fields_index, lemma_view_items_len,
        lemma_view_items_index;

    let mut prompt = String::from_str(
        "Resuma o seguinte texto em portugues, mantendo os pontos principais: ",
    );
    prompt.append(limited);
    let mut msg_fields: Vec<JField> = Vec::new();
    msg_fields.push(JField { key: String::from_str("role"), val: Json::Str(String::from_str("user")) });
    msg_fields.push(JField { key: String::from_str("content"), val: Json::Str(prompt) });
    let ghost msgv = JsonV::Obj(
        seq![("role"@, JsonV::Str("user"@)), ("content"@, JsonV::Str(spec_prompt(limited@)))],
    );
    proof {
        assert(view_fields(msg_fields@) =~= msgv->Obj_0);
    }
    let msg = Json::Obj(msg_fields);
    proof {
        assert(view_json(msg) == msgv);
    }
    let mut msgs: Vec<Json> = Vec::new();
    msgs.push(msg);
    proof {
        assert(view_items(msgs@) =~= seq![msgv]);
    }
    let ghost vmsgs = view_items(msgs@);
    let arr = Json::Arr(msgs);
    proof {
        assert(view_json(arr) == JsonV::Arr(seq![msgv]));
    }
    let mut fields: Vec<JField> = Vec::new();
    fields.push(
        JField { key: String::from_str("model"), val: Json::Str(String::from_str("gpt-4o-mini")) },
    );
    fields.push(JField { key: String::from_str("messages"), val: arr });
    fields.push(JField { key: String::from_str("max_tokens"), val: Json::Num(200) });
    let doc = Json::Obj(fields);
    proof {
        let b = spec_request_body(limited@);
        assert(view_fields(fields@) =~= b->Obj_0);
        assert(view_json(doc) == b);
    }
    write_json(&doc)
}

/// What the service's answer denotes.
pub ghost enum SummaryOutcome {
    /// Not a completion document at all.
    Malformed,
    /// A completion document with an empty candidate list.
    Empty,
    /// The first candidate's text.
    Text(Seq<char>),
}

/// Reads a response body: the `content` of the `message` of the first
/// element of `choices`.
pub open spec fn spec_summary_outcome(body: Seq<char>) -> SummaryOutcome {
    match spec_json_of(body) {
        None => SummaryOutcome::Malformed,
        Some(j) => match j {
            JsonV::Obj(fields) => match jfield_lookup(fields, "choices"@) {
                Some(JsonV::Arr(items)) => if items.len() == 0 {
                    SummaryOutcome::Empty
                } else {
                    match items[0] {
                        JsonV::Obj(f2) => match jfield_lookup(f2, "message"@) {
                            Some(JsonV::Obj(f3)) => match jfield_lookup(f3, "content"@) {
                                Some(JsonV::Str(t)) => SummaryOutcome::Text(t),
                                _ => SummaryOutcome::Malformed,
                            },
                            _ => SummaryOutcome::Malformed,
                        },
                        _ => SummaryOutcome::Malformed,
                    }
                },
                _ => SummaryOutcome::Malformed,
            },
            _ => SummaryOutcome::Malformed,
        },
    }
}

/// The first candidate's text in a response body, or the failure the body
/// denotes: `EmptyResult` for an empty candidate list, `MalformedResponse`
/// for anything that is not a completion document.
pub fn parse_summary_response(body: &str) -> (r: Result<String, PdfError>)
    ensures
        match (r, spec_summary_outcome(body@)) {
            (Ok(t), SummaryOutcome::Text(tt)) => t@ == tt,
            (Err(e), SummaryOutcome::Empty) => e is EmptyResult,
            (Err(e), SummaryOutcome::Malformed) => e is MalformedResponse,
            _ => false,
        },
{
    broadcast use lemma_view_fields_len, lemma_view_fields_index, lemma_view_items_len,
        lemma_view_items_index;

    let doc = match parse_json(body) {
        None => {
            return Err(PdfError::MalformedResponse);
        },
        Some(doc) => doc,
    };
    let fields = match &doc {
        Json::Obj(fields) => fields,
        _ => {
            return Err(PdfError::MalformedResponse);
        },
    };
    let ci = match find_field(fields, &String::from_str("choices")) {
        None => {
            return Err(PdfError::MalformedResponse);
        },
        Some(i) => i,
    };
    proof {
        lemma_view_fields_index(fields@, ci as int);
    }
    let items = match &fields[ci].val {
        Json::Arr(items) => items,
        _ => {
            return Err(PdfError::MalformedResponse);
        },
    };
    proof {
        lemma_view_items_len(items@);
    }
    if items.len() == 0 {
        return Err(PdfError::EmptyResult);
    }
    proof {
        lemma_view_items_index(items@, 0);
    }
    let f2 = match &items[0] {
        Json::Obj(f2) => f2,
        _ => {
            return Err(PdfError::MalformedResponse);
        },
    };
    let mi = match find_field(f2, &String::from_str("message")) {
        None => {
            return Err(PdfError::MalformedResponse);
        },
        Some(i) => i,
    };
    proof {
        lemma_view_fields_len(f2@);
        lemma_view_fields_index(f2@, mi as int);
    }
    let f3 = match &f2[mi].val {
        Json::Obj(f3) => f3,
        _ => {
            return Err(PdfError::MalformedResponse);
        },
    };
    let ti = match find_field(f3, &String::from_str("content")) {
        None => {
            return Err(PdfError::MalformedResponse);
        },
        Some(i) => i,
    };
    proof {
        lemma_view_fields_len(f3@);
        lemma_view_fields_index(f3@, ti as int);
    }
    match &f3[ti].val {
        Json::Str(t) => Ok(t.clone()),
        _ => Err(PdfError::MalformedResponse),
    }
}

/// The one decision between extraction and the service call. A document
/// whose extracted text is empty or whitespace-only fails with
/// `NoExtractableText` and yields no request, so the summarizer is never
/// invoked for it; with text but no credential it fails with
/// `MissingApiKey`; otherwise the request body for the capped text is
/// produced.
pub fn plan_summary_request(text: &str, api_key: &str) -> (r: Result<String, PdfError>)
    ensures
        (r == Err::<String, PdfError>(PdfError::NoExtractableText)) == all_ws(text@),
        match r {
            Ok(body) => !all_ws(text@) && api_key@.len() != 0 && body@ == enc_json(
                spec_request_body(limited_text(text@)),
            ),
            Err(e) => (e is NoExtractableText && all_ws(text@)) || (e is MissingApiKey && !all_ws(
                text@,
            ) && api_key@.len() == 0),
        },
{
    if is_blank(text) {
        return Err(PdfError::NoExtractableText);
    }
    if !check_api_key(api_key) {
        return Err(PdfError::MissingApiKey);
    }
    let content = PdfContent::new(text.to_owned(), String::new());
    let limited = content.get_limited_text();
    Ok(build_summary_request(limited.as_str()))
}

/// The dispatcher's step over the service's answer: a non-success status
/// fails with `HttpFailure` carrying the status and the body; a success
/// status yields the first candidate's text under the document's name, or
/// the failure the body denotes.
pub fn handle_summary_response(status_ok: bool, status: u16, body: &str, filename: &str) -> (r:
    Result<String, PdfError>)
    ensures
        !status_ok ==> (r matches Err(e) && (e matches PdfError::HttpFailure(s, b) && s == status
            && b@ == body@)),
        status_ok ==> match (r, spec_summary_outcome(body@)) {
            (Ok(t), SummaryOutcome::Text(tt)) => t@ == "Resumo do arquivo "@ + filename@ + ":\n\n"@
                + tt,
            (Err(e), SummaryOutcome::Empty) => e is EmptyResult,
            (Err(e), SummaryOutcome::Malformed) => e is MalformedResponse,
            _ => false,
        },
{
    if !status_ok {
        return Err(PdfError::HttpFailure(status, body.to_owned()));
    }
    match parse_summary_response(body) {
        Ok(t) => {
            let mut out = String::from_str("Resumo do arquivo ");
            out.append(filename);
            out.append(":\n\n");
            out.append(t.as_str());
            Ok(out)
        },
        Err(e) => Err(e),
    }
}

impl PdfError {
    /// A human-readable account of the failure.
    pub fn message(&self) -> (r: String)
        ensures
            match self {
                PdfError::NoExtractableText => r@
                    == "O PDF nao contem texto extraivel ou esta protegido/nao textual."@,
                PdfError::MissingApiKey => r@
                    == "API key nao configurada. Defina a variavel de ambiente API_KEY."@,
                PdfError::ExtractionFailed(m) => r@ == "Erro ao extrair texto do PDF: "@ + m@,
                PdfError::NetworkFailure(m) => r@
                    == "Erro ao enviar requisicao para a OpenAI: "@ + m@,
                PdfError::HttpFailure(_, b) => r@ == "Erro HTTP: "@ + b@,
                PdfError::MalformedResponse => r@ == "Erro ao interpretar resposta da OpenAI."@,
                PdfError::EmptyResult => r@ == "Nenhum resumo foi gerado pela API."@,
            },
    {
        match self {
            PdfError::NoExtractableText => String::from_str(
                "O PDF nao contem texto extraivel ou esta protegido/nao textual.",
            ),
            PdfError::MissingApiKey => String::from_str(
                "API key nao configurada. Defina a variavel de ambiente API_KEY.",
            ),
            PdfError::ExtractionFailed(m) => {
                let mut out = String::from_str("Erro ao extrair texto do PDF: ");
                out.append(m.as_str());
                out
            },
            PdfError::NetworkFailure(m) => {
                let mut out = String::from_str("Erro ao enviar requisicao para a OpenAI: ");
                out.append(m.as_str());
                out
            },
            PdfError::HttpFailure(_, b) => {
                let mut out = String::from_str("Erro HTTP: ");
                out.append(b.as_str());
                out
            },
            PdfError::MalformedResponse => String::from_str(
                "Erro ao interpretar resposta da OpenAI.",
            ),
            PdfError::EmptyResult => String::from_str("Nenhum resumo foi gerado pela API."),
        }
    }
}

} // verus!
