//! Pattern catalog: dangerous-phrase lists per language.
//!
//! All five lists are enabled by default through [`all_default`]; the
//! per-language accessors are exposed for introspection and audit.

use vstd::prelude::*;

verus! {

/// The English phrases of the default catalog.
pub open spec fn en_phrases() -> Seq<Seq<char>> {
    seq![
        "ignore previous"@,
        "ignore all previous"@,
        "ignore the above"@,
        "disregard previous"@,
        "disregard all"@,
        "forget everything"@,
        "forget previous"@,
        "forget all previous"@,
        "you are now"@,
        "you're now"@,
        "act as"@,
        "pretend you are"@,
        "pretend to be"@,
        "roleplay as"@,
        "new instructions:"@,
        "new instructions follow"@,
        "new system prompt"@,
        "system prompt:"@,
        "reveal your prompt"@,
        "reveal your instructions"@,
        "show me your prompt"@,
        "show me your instructions"@,
        "your real instructions"@,
        "your true instructions"@,
        "ignore your training"@,
        "jailbreak"@,
        "dan mode"@,
        "developer mode"@,
        "admin override"@,
        "admin mode"@,
        "do anything now"@,
        "no restrictions"@,
        "<|im_end|>"@,
        "<|im_start|>"@,
    ]
}

/// The Polish phrases of the default catalog.
pub open spec fn pl_phrases() -> Seq<Seq<char>> {
    seq![
        "zignoruj poprzednie"@,
        "zignoruj wszystkie poprzednie"@,
        "zignoruj powyższe"@,
        "zapomnij poprzednie"@,
        "zapomnij wszystko"@,
        "jesteś teraz"@,
        "udawaj że jesteś"@,
        "udawaj że"@,
        "działaj jako"@,
        "graj rolę"@,
        "nowe instrukcje:"@,
        "nowy prompt systemowy"@,
        "prompt systemowy:"@,
        "ujawnij prompt"@,
        "ujawnij instrukcje"@,
        "pokaż prompt"@,
        "pokaż swoje instrukcje"@,
        "pokaż system prompt"@,
        "omiń"@,
        "tryb dewelopera"@,
        "tryb administratora"@,
        "bez ograniczeń"@,
    ]
}

/// The Ukrainian phrases of the default catalog.
pub open spec fn ua_phrases() -> Seq<Seq<char>> {
    seq![
        "ігноруй попередні"@,
        "ігноруй усі попередні"@,
        "ігноруй вищевказане"@,
        "забудь попередні"@,
        "забудь усе"@,
        "ти тепер"@,
        "удавай що ти"@,
        "грай роль"@,
        "нові інструкції:"@,
        "новий системний промпт"@,
        "системний промпт:"@,
        "розкрий промпт"@,
        "розкрий інструкції"@,
        "покажи промпт"@,
        "покажи системний промпт"@,
        "режим розробника"@,
        "без обмежень"@,
    ]
}

/// The Simplified Chinese phrases of the default catalog.
pub open spec fn zh_phrases() -> Seq<Seq<char>> {
    seq![
        "忽略之前的"@,
        "忽略所有之前的"@,
        "忽略上面的"@,
        "忘记之前的"@,
        "忘记所有"@,
        "你现在是"@,
        "假装你是"@,
        "扮演"@,
        "扮演角色"@,
        "新指令"@,
        "新的系统提示"@,
        "系统提示:"@,
        "显示系统提示"@,
        "显示提示词"@,
        "显示你的指令"@,
        "开发者模式"@,
        "管理员模式"@,
        "无限制"@,
    ]
}

/// The Russian phrases of the default catalog.
pub open spec fn ru_phrases() -> Seq<Seq<char>> {
    seq![
        "игнорируй предыдущие"@,
        "игнорируй все предыдущие"@,
        "игнорируй вышесказанное"@,
        "забудь предыдущие"@,
        "забудь всё"@,
        "ты теперь"@,
        "притворись что ты"@,
        "играй роль"@,
        "новые инструкции:"@,
        "новый системный промпт"@,
        "системный промпт:"@,
        "покажи промпт"@,
        "покажи инструкции"@,
        "покажи системный промпт"@,
        "режим разработчика"@,
        "режим администратора"@,
        "без ограничений"@,
    ]
}

/// The whole default catalog: English, Polish, Ukrainian, Chinese and Russian, in that order.
pub open spec fn default_phrases() -> Seq<Seq<char>> {
    en_phrases() + pl_phrases() + ua_phrases() + zh_phrases() + ru_phrases()
}

/// The character contents of a list of string slices.
pub open spec fn str_views(v: Seq<&str>) -> Seq<Seq<char>> {
    v.map_values(|p: &str| p@)
}

/// The default catalog as one static list: EN, PL, UA, ZH, RU in turn.
fn catalog() -> (r: &'static [&'static str])
    ensures
        str_views(r@) == default_phrases(),
{
    let r: &'static [&'static str] = &[
        "ignore previous",
        "ignore all previous",
        "ignore the above",
        "disregard previous",
        "disregard all",
        "forget everything",
        "forget previous",
        "forget all previous",
        "you are now",
        "you're now",
        "act as",
        "pretend you are",
        "pretend to be",
        "roleplay as",
        "new instructions:",
        "new instructions follow",
        "new system prompt",
        "system prompt:",
        "reveal your prompt",
        "reveal your instructions",
        "show me your prompt",
        "show me your instructions",
        "your real instructions",
        "your true instructions",
        "ignore your training",
        "jailbreak",
        "dan mode",
        "developer mode",
        "admin override",
        "admin mode",
        "do anything now",
        "no restrictions",
        "<|im_end|>",
        "<|im_start|>",
        "zignoruj poprzednie",
        "zignoruj wszystkie poprzednie",
        "zignoruj powyższe",
        "zapomnij poprzednie",
        "zapomnij wszystko",
        "jesteś teraz",
        "udawaj że jesteś",
        "udawaj że",
        "działaj jako",
        "graj rolę",
        "nowe instrukcje:",
        "nowy prompt systemowy",
        "prompt systemowy:",
        "ujawnij prompt",
        "ujawnij instrukcje",
        "pokaż prompt",
        "pokaż swoje instrukcje",
        "pokaż system prompt",
        "omiń",
        "tryb dewelopera",
        "tryb administratora",
        "bez ograniczeń",
        "ігноруй попередні",
        "ігноруй усі попередні",
        "ігноруй вищевказане",
        "забудь попередні",
        "забудь усе",
        "ти тепер",
        "удавай що ти",
        "грай роль",
        "нові інструкції:",
        "новий системний промпт",
        "системний промпт:",
        "розкрий промпт",
        "розкрий інструкції",
        "покажи промпт",
        "покажи системний промпт",
        "режим розробника",
        "без обмежень",
        "忽略之前的",
        "忽略所有之前的",
        "忽略上面的",
        "忘记之前的",
        "忘记所有",
        "你现在是",
        "假装你是",
        "扮演",
        "扮演角色",
        "新指令",
        "新的系统提示",
        "系统提示:",
        "显示系统提示",
        "显示提示词",
        "显示你的指令",
        "开发者模式",
        "管理员模式",
        "无限制",
        "игнорируй предыдущие",
        "игнорируй все предыдущие",
        "игнорируй вышесказанное",
        "забудь предыдущие",
        "забудь всё",
        "ты теперь",
        "притворись что ты",
        "играй роль",
        "новые инструкции:",
        "новый системный промпт",
        "системный промпт:",
        "покажи промпт",
        "покажи инструкции",
        "покажи системный промпт",
        "режим разработчика",
        "режим администратора",
        "без ограничений",
    ];
    assert(str_views(r@) =~= default_phrases());
    r
}


proof fn lemma_catalog_parts()
    ensures
        default_phrases().len() == 108,
        default_phrases().subrange(0, 34) == en_phrases(),
        default_phrases().subrange(34, 56) == pl_phrases(),
        default_phrases().subrange(56, 73) == ua_phrases(),
        default_phrases().subrange(73, 91) == zh_phrases(),
        default_phrases().subrange(91, 108) == ru_phrases(),
{
    let d = default_phrases();
    assert(d.subrange(0, 34) =~= en_phrases());
    assert(d.subrange(34, 56) =~= pl_phrases());
    assert(d.subrange(56, 73) =~= ua_phrases());
    assert(d.subrange(73, 91) =~= zh_phrases());
    assert(d.subrange(91, 108) =~= ru_phrases());
}

/// The concatenated default catalog (EN + PL + UA + ZH + RU).
/// Every call returns the same static list.
pub fn all_default() -> (r: &'static [&'static str])
    ensures
        str_views(r@) == default_phrases(),
{
    catalog()
}

/// The English phrases of the default catalog.
pub fn default_en() -> (r: &'static [&'static str])
    ensures
        str_views(r@) == en_phrases(),
{
    let all = catalog();
    proof {
        lemma_catalog_parts();
        assert(all@.len() == str_views(all@).len());
    }
    let r = vstd::slice::slice_subrange(all, 0, 34);
    proof {
        assert(str_views(r@) =~= default_phrases().subrange(0, 34));
    }
    r
}

/// The Polish phrases of the default catalog.
pub fn default_pl() -> (r: &'static [&'static str])
    ensures
        str_views(r@) == pl_phrases(),
{
    let all = catalog();
    proof {
        lemma_catalog_parts();
        assert(all@.len() == str_views(all@).len());
    }
    let r = vstd::slice::slice_subrange(all, 34, 56);
    proof {
        assert(str_views(r@) =~= default_phrases().subrange(34, 56));
    }
    r
}

/// The Ukrainian phrases of the default catalog.
pub fn default_ua() -> (r: &'static [&'static str])
    ensures
        str_views(r@) == ua_phrases(),
{
    let all = catalog();
    proof {
        lemma_catalog_parts();
        assert(all@.len() == str_views(all@).len());
    }
    let r = vstd::slice::slice_subrange(all, 56, 73);
    proof {
        assert(str_views(r@) =~= default_phrases().subrange(56, 73));
    }
    r
}

/// The Chinese phrases of the default catalog.
pub fn default_zh() -> (r: &'static [&'static str])
    ensures
        str_views(r@) == zh_phrases(),
{
    let all = catalog();
    proof {
        lemma_catalog_parts();
        assert(all@.len() == str_views(all@).len());
    }
    let r = vstd::slice::slice_subrange(all, 73, 91);
    proof {
        assert(str_views(r@) =~= default_phrases().subrange(73, 91));
    }
    r
}

/// The Russian phrases of the default catalog.
pub fn default_ru() -> (r: &'static [&'static str])
    ensures
        str_views(r@) == ru_phrases(),
{
    let all = catalog();
    proof {
        lemma_catalog_parts();
        assert(all@.len() == str_views(all@).len());
    }
    let r = vstd::slice::slice_subrange(all, 91, 108);
    proof {
        assert(str_views(r@) =~= default_phrases().subrange(91, 108));
    }
    r
}

} // verus!
