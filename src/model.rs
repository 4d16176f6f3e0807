use vstd::prelude::*;
use vstd::string::StringExecFns;

verus! {

/// Where each provider serves chat completions.
pub const DEEPSEEK_API_ENDPOINT: &'static str = "https://api.deepseek.com/v1/chat/completions";
pub const MISTRAL_API_ENDPOINT: &'static str = "https://api.mistral.ai/v1/chat/completions";
pub const OPENROUTER_API_ENDPOINT: &'static str = "https://openrouter.ai/api/v1/chat/completions";
pub const ANTHROPIC_API_ENDPOINT: &'static str = "https://api.anthropic.com/v1/chat/completions";

/// A model as offered to users: its provider-side id, the flag that selects it,
/// its display name, and where and with which key it is reached.
#[derive(Debug, Clone, PartialEq, Eq)]
pub struct Model {
    pub id: String,
    pub short_name: String,
    pub name: String,
    pub api_key: String,
    pub endpoint: String,
}

/// A model as a provider's configuration lists it.
#[derive(Debug, Clone, PartialEq, Eq)]
pub struct ModelEntry {
    pub id: String,
    pub short_name: String,
    pub name: String,
}

/// A provider with its credentials and the models it serves.
#[derive(Debug, Clone, PartialEq, Eq)]
pub struct Provider {
    pub name: String,
    pub api_key: String,
    pub endpoint: String,
    pub models: Vec<ModelEntry>,
}

/// Why no model list could be built.
#[derive(Debug, Clone, Copy, PartialEq, Eq, Structural)]
pub enum ModelListError {
    MissingModels,
    DefaultModelNotFound,
}

impl ModelListError {
    /// The message shown to the user.
    pub fn message(&self) -> (r: String)
        ensures
            *self == ModelListError::MissingModels ==> r@ == "Missing API keys or model configuration"@,
            *self == ModelListError::DefaultModelNotFound ==> r@ == "Default model not found"@,
    {
        let r = match self {
            ModelListError::MissingModels => "Missing API keys or model configuration".to_string(),
            ModelListError::DefaultModelNotFound => "Default model not found".to_string(),
        };
        proof {
            reveal_strlit("Missing API keys or model configuration");
            reveal_strlit("Default model not found");
        }
        r
    }
}

/// The non-empty list of usable models, one of which is the default.
#[derive(Debug, Clone, PartialEq, Eq)]
pub struct ModelList {
    models: Vec<Model>,
    default_model_index: usize,
}

/// The model that a provider's entry stands for.
pub open spec fn model_of(p: Provider, e: ModelEntry) -> Model {
    Model { id: e.id, short_name: e.short_name, name: e.name, api_key: p.api_key, endpoint: p.endpoint }
}

/// All models of all providers, in the order in which providers and their entries are listed.
pub open spec fn all_models(providers: Seq<Provider>) -> Seq<Model>
    decreases providers.len(),
{
    if providers.len() == 0 {
        Seq::empty()
    } else {
        let p = providers.last();
        all_models(providers.drop_last()) + p.models@.map_values(|e: ModelEntry| model_of(p, e))
    }
}

/// How a model is listed for humans: its flag in brackets, then its name.
pub open spec fn labelled(m: Model) -> Seq<char> {
    seq!['['] + m.short_name@ + seq![']'] + m.name@
}

/// Index of the first model whose id is `id`, or -1.
pub open spec fn first_with_id(models: Seq<Model>, id: Seq<char>) -> int
    decreases models.len(),
{
    if models.len() == 0 {
        -1
    } else {
        let f = first_with_id(models.drop_last(), id);
        if f >= 0 {
            f
        } else if models.last().id@ == id {
            models.len() - 1
        } else {
            -1
        }
    }
}

/// Index of the first model whose flag is `flag`, or -1.
pub open spec fn first_with_flag(models: Seq<Model>, flag: Seq<char>) -> int
    decreases models.len(),
{
    if models.len() == 0 {
        -1
    } else {
        let f = first_with_flag(models.drop_last(), flag);
        if f >= 0 {
            f
        } else if models.last().short_name@ == flag {
            models.len() - 1
        } else {
            -1
        }
    }
}

/// Index of the model that the last flag naming a model selects, or -1.
pub open spec fn flag_choice(models: Seq<Model>, flags: Seq<String>) -> int
    decreases flags.len(),
{
    if flags.len() == 0 {
        -1
    } else {
        let m = first_with_flag(models, flags.last()@);
        if m >= 0 {
            m
        } else {
            flag_choice(models, flags.drop_last())
        }
    }
}

proof fn lemma_first_with_id_range(models: Seq<Model>, id: Seq<char>)
    ensures
        -1 <= first_with_id(models, id) < models.len(),
        first_with_id(models, id) >= 0 ==> models[first_with_id(models, id)].id@ == id,
    decreases models.len(),
{
    if models.len() > 0 {
        lemma_first_with_id_range(models.drop_last(), id);
    }
}

proof fn lemma_first_with_flag_range(models: Seq<Model>, flag: Seq<char>)
    ensures
        -1 <= first_with_flag(models, flag) < models.len(),
    decreases models.len(),
{
    if models.len() > 0 {
        lemma_first_with_flag_range(models.drop_last(), flag);
    }
}

proof fn lemma_flag_choice_range(models: Seq<Model>, flags: Seq<String>)
    ensures
        -1 <= flag_choice(models, flags) < models.len(),
    decreases flags.len(),
{
    if flags.len() > 0 {
        lemma_first_with_flag_range(models, flags.last()@);
        lemma_flag_choice_range(models, flags.drop_last());
    }
}

fn find_by_id(models: &Vec<Model>, wanted: &str) -> (r: Option<usize>)
    ensures
        r is Some <==> first_with_id(models@, wanted@) >= 0,
        r is Some ==> r->0 == first_with_id(models@, wanted@),
{
    let id = wanted.to_string();
    let mut i: usize = 0;
    while i < models.len()
        invariant
            i <= models.len(),
            id@ == wanted@,
            first_with_id(models@.take(i as int), id@) == -1,
        decreases models.len() - i,
    {
        assert(models@.take(i as int + 1).drop_last() =~= models@.take(i as int));
        if models[i].id == id {
            proof { lemma_prefix_first_id(models@, id@, i as int); }
            return Some(i);
        }
        i = i + 1;
    }
    assert(models@.take(i as int) =~= models@);
    None
}

proof fn lemma_prefix_first_id(models: Seq<Model>, id: Seq<char>, i: int)
    requires
        0 <= i < models.len(),
        first_with_id(models.take(i), id) == -1,
        models[i].id@ == id,
    ensures
        first_with_id(models, id) == i,
    decreases models.len(),
{
    if models.len() == i + 1 {
        assert(models.drop_last() =~= models.take(i));
    } else {
        assert(models.drop_last().take(i) =~= models.take(i));
        lemma_prefix_first_id(models.drop_last(), id, i);
    }
}

proof fn lemma_prefix_first_flag(models: Seq<Model>, flag: Seq<char>, i: int)
    requires
        0 <= i < models.len(),
        first_with_flag(models.take(i), flag) == -1,
        models[i].short_name@ == flag,
    ensures
        first_with_flag(models, flag) == i,
    decreases models.len(),
{
    if models.len() == i + 1 {
        assert(models.drop_last() =~= models.take(i));
    } else {
        assert(models.drop_last().take(i) =~= models.take(i));
        lemma_prefix_first_flag(models.drop_last(), flag, i);
    }
}

fn find_by_flag(models: &Vec<Model>, flag: &String) -> (r: Option<usize>)
    ensures
        r is Some <==> first_with_flag(models@, flag@) >= 0,
        r is Some ==> r->0 == first_with_flag(models@, flag@),
{
    let mut i: usize = 0;
    while i < models.len()
        invariant
            i <= models.len(),
            first_with_flag(models@.take(i as int), flag@) == -1,
        decreases models.len() - i,
    {
        assert(models@.take(i as int + 1).drop_last() =~= models@.take(i as int));
        if models[i].short_name == *flag {
            proof { lemma_prefix_first_flag(models@, flag@, i as int); }
            return Some(i);
        }
        i = i + 1;
    }
    assert(models@.take(i as int) =~= models@);
    None
}

impl ModelList {
    pub closed spec fn models(&self) -> Seq<Model> {
        self.models@
    }

    pub closed spec fn default_index(&self) -> int {
        self.default_model_index as int
    }

    pub closed spec fn wf(&self) -> bool {
        self.default_model_index < self.models.len()
    }

    /// The default model.
    pub open spec fn default_spec(&self) -> Model {
        self.models()[self.default_index()]
    }

    /// Builds a list from models and the position of the default among them;
    /// `None` when that position is outside the list.
    pub fn from_models(models: Vec<Model>, default_model_index: usize) -> (r: Option<ModelList>)
        ensures
            r is Some <==> default_model_index < models@.len(),
            r is Some ==> r->0.wf() && r->0.models() == models@
                && r->0.default_index() == default_model_index,
    {
        if default_model_index < models.len() {
            Some(ModelList { models, default_model_index })
        } else {
            None
        }
    }

    /// Collects the models of all providers; the default is the first whose id is
    /// `default_model_id`.
    pub fn new(providers: &Vec<Provider>, default_model_id: &str) -> (r: Result<ModelList, ModelListError>)
        ensures
            all_models(providers@).len() == 0 ==> r == Err::<ModelList, ModelListError>(ModelListError::MissingModels),
            all_models(providers@).len() > 0 && first_with_id(all_models(providers@), default_model_id@) < 0
                ==> r == Err::<ModelList, ModelListError>(ModelListError::DefaultModelNotFound),
            all_models(providers@).len() > 0 && first_with_id(all_models(providers@), default_model_id@) >= 0
                ==> r is Ok && r->Ok_0.wf() && r->Ok_0.models() == all_models(providers@)
                && r->Ok_0.default_index() == first_with_id(all_models(providers@), default_model_id@),
    {
        let mut models: Vec<Model> = Vec::new();
        let mut pi: usize = 0;
        while pi < providers.len()
            invariant
                pi <= providers.len(),
                models@ == all_models(providers@.take(pi as int)),
            decreases providers.len() - pi,
        {
            let provider = &providers[pi];
            let ghost before = models@;
            let mut mi: usize = 0;
            while mi < provider.models.len()
                invariant
                    mi <= provider.models.len(),
                    *provider == providers@[pi as int],
                    models@ == before + provider.models@.take(mi as int).map_values(
                        |e: ModelEntry| model_of(*provider, e),
                    ),
                decreases provider.models.len() - mi,
            {
                let e = &provider.models[mi];
                models.push(
                    Model {
                        id: e.id.clone(),
                        short_name: e.short_name.clone(),
                        name: e.name.clone(),
                        api_key: provider.api_key.clone(),
                        endpoint: provider.endpoint.clone(),
                    },
                );
                assert(provider.models@.take(mi as int + 1) =~= provider.models@.take(mi as int).push(*e));
                assert(models@ =~= before + provider.models@.take(mi as int + 1).map_values(
                    |e: ModelEntry| model_of(*provider, e),
                ));
                mi = mi + 1;
            }
            assert(provider.models@.take(mi as int) =~= provider.models@);
            assert(providers@.take(pi as int + 1).drop_last() =~= providers@.take(pi as int));
            pi = pi + 1;
        }
        assert(providers@.take(pi as int) =~= providers@);
        if models.len() == 0 {
            return Err(ModelListError::MissingModels);
        }
        proof { lemma_first_with_id_range(models@, default_model_id@); }
        match find_by_id(&models, default_model_id) {
            Some(default_model_index) => Ok(ModelList { models, default_model_index }),
            None => Err(ModelListError::DefaultModelNotFound),
        }
    }

    fn default_model(&self) -> (r: &Model)
        requires
            self.wf(),
        ensures
            *r == self.default_spec(),
    {
        &self.models[self.default_model_index]
    }

    pub fn default_model_name(&self) -> (r: &str)
        requires
            self.wf(),
        ensures
            r@ == self.default_spec().name@,
    {
        self.default_model().name.as_str()
    }

    /// The model named by the last flag that names one (the first model with that flag);
    /// else the first model whose id is the channel's default; else the default model.
    pub fn select_model_for_channel(&self, flags: &[String], channel_default_model_id: &str) -> (r: Result<&Model, String>)
        requires
            self.wf(),
        ensures
            r is Ok,
            flag_choice(self.models(), flags@) >= 0 ==> *r->Ok_0 == self.models()[flag_choice(self.models(), flags@)],
            flag_choice(self.models(), flags@) < 0 && first_with_id(self.models(), channel_default_model_id@) >= 0
                ==> *r->Ok_0 == self.models()[first_with_id(self.models(), channel_default_model_id@)],
            flag_choice(self.models(), flags@) < 0 && first_with_id(self.models(), channel_default_model_id@) < 0
                ==> *r->Ok_0 == self.default_spec(),
    {
        let mut selected: Option<usize> = None;
        let mut i: usize = 0;
        while i < flags.len()
            invariant
                i <= flags@.len(),
                selected is Some <==> flag_choice(self.models@, flags@.take(i as int)) >= 0,
                selected is Some ==> selected->0 == flag_choice(self.models@, flags@.take(i as int)),
            decreases flags.len() - i,
        {
            assert(flags@.take(i as int + 1).drop_last() =~= flags@.take(i as int));
            match find_by_flag(&self.models, &flags[i]) {
                Some(m) => {
                    selected = Some(m);
                },
                None => {},
            }
            i = i + 1;
        }
        assert(flags@.take(i as int) =~= flags@);
        proof {
            lemma_flag_choice_range(self.models@, flags@);
            lemma_first_with_id_range(self.models@, channel_default_model_id@);
        }
        if let Some(m) = selected {
            return Ok(&self.models[m]);
        }
        match find_by_id(&self.models, channel_default_model_id) {
            Some(m) => Ok(&self.models[m]),
            None => Ok(self.default_model()),
        }
    }

    /// The models other than the default (by id), in list order.
    pub open spec fn others(&self) -> Seq<Model> {
        self.models().filter(|m: Model| m.id@ != self.default_spec().id@)
    }

    /// The flags of the models other than the default, in list order.
    pub fn list_model_flags_without_default(&self) -> (r: Vec<String>)
        requires
            self.wf(),
        ensures
            r@.map_values(|s: String| s@) == self.others().map_values(|m: Model| m.short_name@),
    {
        let d = &self.default_model().id;
        let ghost pred = |m: Model| m.id@ != self.default_spec().id@;
        let mut r: Vec<String> = Vec::new();
        let mut i: usize = 0;
        while i < self.models.len()
            invariant
                i <= self.models@.len(),
                *d == self.default_spec().id,
                pred == (|m: Model| m.id@ != self.default_spec().id@),
                r@.map_values(|s: String| s@) == self.models@.take(i as int).filter(pred).map_values(
                    |m: Model| m.short_name@,
                ),
            decreases self.models.len() - i,
        {
            let m = &self.models[i];
            assert(self.models@.take(i as int + 1).drop_last() =~= self.models@.take(i as int));
            let ghost old_r = r@;
            proof {
                reveal(Seq::filter);
                let t = self.models@.take(i as int + 1);
                assert(t.last() == *m);
                assert(t.filter(pred) == if pred(*m) {
                    self.models@.take(i as int).filter(pred).push(*m)
                } else {
                    self.models@.take(i as int).filter(pred)
                });
            }
            if !(m.id == *d) {
                r.push(m.short_name.clone());
                assert(r@.map_values(|s: String| s@) =~= old_r.map_values(|s: String| s@).push(m.short_name@));
                assert(self.models@.take(i as int).filter(pred).push(*m).map_values(|m: Model| m.short_name@)
                    =~= self.models@.take(i as int).filter(pred).map_values(|m: Model| m.short_name@).push(m.short_name@));
            }
            assert(r@.map_values(|s: String| s@) == self.models@.take(i as int + 1).filter(pred).map_values(
                |m: Model| m.short_name@,
            ));
            i = i + 1;
        }
        assert(self.models@.take(i as int) =~= self.models@);
        r
    }

    /// `[flag]name` for each model other than the default, in list order.
    pub fn list_model_flags_human_readable(&self) -> (r: Vec<String>)
        requires
            self.wf(),
        ensures
            r@.map_values(|s: String| s@) == self.others().map_values(|m: Model| labelled(m)),
    {
        let d = &self.default_model().id;
        let ghost pred = |m: Model| m.id@ != self.default_spec().id@;
        let mut r: Vec<String> = Vec::new();
        let mut i: usize = 0;
        while i < self.models.len()
            invariant
                i <= self.models@.len(),
                *d == self.default_spec().id,
                pred == (|m: Model| m.id@ != self.default_spec().id@),
                r@.map_values(|s: String| s@) == self.models@.take(i as int).filter(pred).map_values(
                    |m: Model| labelled(m),
                ),
            decreases self.models.len() - i,
        {
            let m = &self.models[i];
            assert(self.models@.take(i as int + 1).drop_last() =~= self.models@.take(i as int));
            let ghost old_r = r@;
            proof {
                reveal(Seq::filter);
                let t = self.models@.take(i as int + 1);
                assert(t.last() == *m);
                assert(t.filter(pred) == if pred(*m) {
                    self.models@.take(i as int).filter(pred).push(*m)
                } else {
                    self.models@.take(i as int).filter(pred)
                });
            }
            if !(m.id == *d) {
                let mut label = String::new();
                label.append("[");
                label.append(m.short_name.as_str());
                label.append("]");
                label.append(m.name.as_str());
                proof {
                    reveal_strlit("[");
                    reveal_strlit("]");
                    assert(label@ =~= labelled(*m));
                }
                r.push(label);
                assert(r@.map_values(|s: String| s@) =~= old_r.map_values(|s: String| s@).push(labelled(*m)));
                assert(self.models@.take(i as int).filter(pred).push(*m).map_values(|m: Model| labelled(m))
                    =~= self.models@.take(i as int).filter(pred).map_values(|m: Model| labelled(m)).push(labelled(*m)));
            }
            assert(r@.map_values(|s: String| s@) == self.models@.take(i as int + 1).filter(pred).map_values(
                |m: Model| labelled(m),
            ));
            i = i + 1;
        }
        assert(self.models@.take(i as int) =~= self.models@);
        r
    }

    /// The flags of all models, in list order.
    pub fn list_model_flags(&self) -> (r: Vec<String>)
        ensures
            r@.len() == self.models().len(),
            forall|i: int| 0 <= i < r@.len() ==> r@[i]@ == self.models()[i].short_name@,
    {
        let mut r: Vec<String> = Vec::new();
        let mut i: usize = 0;
        while i < self.models.len()
            invariant
                i <= self.models@.len(),
                r@.len() == i,
                forall|j: int| 0 <= j < i ==> r@[j]@ == self.models@[j].short_name@,
            decreases self.models.len() - i,
        {
            r.push(self.models[i].short_name.clone());
            i = i + 1;
        }
        r
    }
}

/// The flag that clears the joined users' memory before a query.
pub const CLEAR_MEMORY_FLAG: &'static str = "clear_history";

/// The flag that sets the sampling temperature.
pub const TEMPERATURE_FLAG: &'static str = "temp";

/// The parts joined with `sep` between each two.
pub open spec fn join_with(parts: Seq<Seq<char>>, sep: Seq<char>) -> Seq<char>
    decreases parts.len(),
{
    if parts.len() == 0 {
        Seq::empty()
    } else if parts.len() == 1 {
        parts[0]
    } else {
        join_with(parts.drop_last(), sep) + sep + parts.last()
    }
}

/// The strings of `parts` joined with `sep` between each two.
pub fn join_strings(parts: &Vec<String>, sep: &str) -> (r: String)
    ensures
        r@ == join_with(parts@.map_values(|p: String| p@), sep@),
{
    let ghost ps = parts@.map_values(|p: String| p@);
    let mut r = String::new();
    let mut i: usize = 0;
    while i < parts.len()
        invariant
            i <= parts@.len(),
            ps == parts@.map_values(|p: String| p@),
            r@ == join_with(ps.take(i as int), sep@),
        decreases parts@.len() - i,
    {
        assert(ps.take(i as int + 1).drop_last() =~= ps.take(i as int));
        if i > 0 {
            r.append(sep);
        }
        r.append(parts[i].as_str());
        proof {
            if i == 0 {
                assert(ps.take(1) =~= seq![parts@[0]@]);
                assert(r@ =~= ps.take(1)[0]);
            } else {
                assert(ps.take(i as int + 1).last() == parts@[i as int]@);
            }
        }
        i = i + 1;
    }
    assert(ps.take(i as int) =~= ps);
    r
}

/// The usage line: the model flags (default excluded), the memory and temperature flags,
/// the models for humans and the default model's name.
pub fn usage(models: &ModelList) -> (r: String)
    requires
        models.wf(),
    ensures
        r@ == "Usage: !ai ["@ + join_with(models.others().map_values(|m: Model| seq!['-'] + m.short_name@), "|"@)
            + "] [-clear_history|-c] [-temp=1.0|-t=1.0] <query>.  Models: "@
            + join_with(models.others().map_values(|m: Model| labelled(m)), " "@) + ".  Default: "@
            + models.default_spec().name@,
{
    let flags = models.list_model_flags_without_default();
    let mut dashed: Vec<String> = Vec::new();
    let mut i: usize = 0;
    proof { reveal_strlit("-"); }
    while i < flags.len()
        invariant
            i <= flags@.len(),
            dashed@.len() == i,
            forall|k: int| 0 <= k < i ==> (#[trigger] dashed@[k])@ == seq!['-'] + flags@[k]@,
        decreases flags@.len() - i,
    {
        let mut d = "-".to_string();
        d.append(flags[i].as_str());
        proof {
            reveal_strlit("-");
            assert(d@ =~= seq!['-'] + flags@[i as int]@);
        }
        dashed.push(d);
        i = i + 1;
    }
    proof {
        let want = models.others().map_values(|m: Model| seq!['-'] + m.short_name@);
        let fl = flags@.map_values(|s: String| s@);
        assert(fl == models.others().map_values(|m: Model| m.short_name@));
        assert(fl.len() == models.others().len());
        assert forall|k: int| 0 <= k < want.len() implies dashed@.map_values(|p: String| p@)[k] == want[k] by {
            assert(fl[k] == flags@[k]@);
            assert(fl[k] == models.others()[k].short_name@);
        }
        assert(dashed@.map_values(|p: String| p@) =~= want);
    }
    let mut r = "Usage: !ai [".to_string();
    r.append(join_strings(&dashed, "|").as_str());
    r.append("] [-");
    r.append(CLEAR_MEMORY_FLAG);
    r.append("|-c] [-");
    r.append(TEMPERATURE_FLAG);
    r.append("=1.0|-t=1.0] <query>.  Models: ");
    r.append(join_strings(&models.list_model_flags_human_readable(), " ").as_str());
    r.append(".  Default: ");
    r.append(models.default_model_name());
    proof {
        reveal_strlit("Usage: !ai [");
        reveal_strlit("|");
        reveal_strlit("] [-");
        reveal_strlit("clear_history");
        reveal_strlit("|-c] [-");
        reveal_strlit("temp");
        reveal_strlit("=1.0|-t=1.0] <query>.  Models: ");
        reveal_strlit(" ");
        reveal_strlit(".  Default: ");
        reveal_strlit("] [-clear_history|-c] [-temp=1.0|-t=1.0] <query>.  Models: ");
        assert("] [-"@ + "clear_history"@ + "|-c] [-"@ + "temp"@ + "=1.0|-t=1.0] <query>.  Models: "@
            =~= "] [-clear_history|-c] [-temp=1.0|-t=1.0] <query>.  Models: "@);
    }
    r
}

} // verus!
