//! Rule texts of the built-in input tables: one `key<TAB>value` rule per line.
use vstd::prelude::*;

verus! {

/// Romaji to hiragana.
pub const ROMAN_TO_KANA_RULES: &'static str = "a\tあ\ni\tい\nu\tう\ne\tえ\no\tお\nka\tか\nki\tき\nku\tく\nke\tけ\nko\tこ\nsa\tさ\nsi\tし\n\
    su\tす\nse\tせ\nso\tそ\nta\tた\nti\tち\ntu\tつ\nte\tて\nto\tと\nna\tな\nni\tに\nnu\tぬ\nne\tね\n\
    no\tの\nha\tは\nhi\tひ\nhu\tふ\nhe\tへ\nho\tほ\nma\tま\nmi\tみ\nmu\tむ\nme\tめ\nmo\tも\nra\tら\n\
    ri\tり\nru\tる\nre\tれ\nro\tろ\nga\tが\ngi\tぎ\ngu\tぐ\nge\tげ\ngo\tご\nza\tざ\nzi\tじ\nzu\tず\n\
    ze\tぜ\nzo\tぞ\nda\tだ\ndi\tぢ\ndu\tづ\nde\tで\ndo\tど\nba\tば\nbi\tび\nbu\tぶ\nbe\tべ\nbo\tぼ\n\
    pa\tぱ\npi\tぴ\npu\tぷ\npe\tぺ\npo\tぽ\nya\tや\nyu\tゆ\nyo\tよ\nyi\tい\nye\tいぇ\nwa\tわ\nwi\tうぃ\n\
    wu\tう\nwe\tうぇ\nwo\tを\nshi\tし\nchi\tち\ntsu\tつ\nfu\tふ\nji\tじ\nfa\tふぁ\nfi\tふぃ\nfe\tふぇ\nfo\tふぉ\n\
    va\tゔぁ\nvi\tゔぃ\nvu\tゔ\nve\tゔぇ\nvo\tゔぉ\nca\tか\ncu\tく\nco\tこ\nqa\tくぁ\nqi\tくぃ\nqu\tく\nqe\tくぇ\n\
    qo\tくぉ\nthi\tてぃ\ndhi\tでぃ\ntwu\tとぅ\ndwu\tどぅ\ntsa\tつぁ\ntsi\tつぃ\ntse\tつぇ\ntso\tつぉ\nxa\tぁ\nxi\tぃ\nxu\tぅ\n\
    xe\tぇ\nxo\tぉ\nla\tぁ\nli\tぃ\nlu\tぅ\nle\tぇ\nlo\tぉ\nxya\tゃ\nxyu\tゅ\nxyo\tょ\nlya\tゃ\nlyu\tゅ\n\
    lyo\tょ\nxtu\tっ\nltu\tっ\nxwa\tゎ\nlwa\tゎ\nxka\tゕ\nxke\tゖ\nkya\tきゃ\nkyi\tきぃ\nkyu\tきゅ\nkye\tきぇ\nkyo\tきょ\n\
    sya\tしゃ\nsyi\tしぃ\nsyu\tしゅ\nsye\tしぇ\nsyo\tしょ\ntya\tちゃ\ntyi\tちぃ\ntyu\tちゅ\ntye\tちぇ\ntyo\tちょ\nnya\tにゃ\nnyi\tにぃ\n\
    nyu\tにゅ\nnye\tにぇ\nnyo\tにょ\nhya\tひゃ\nhyi\tひぃ\nhyu\tひゅ\nhye\tひぇ\nhyo\tひょ\nmya\tみゃ\nmyi\tみぃ\nmyu\tみゅ\nmye\tみぇ\n\
    myo\tみょ\nrya\tりゃ\nryi\tりぃ\nryu\tりゅ\nrye\tりぇ\nryo\tりょ\ngya\tぎゃ\ngyi\tぎぃ\ngyu\tぎゅ\ngye\tぎぇ\ngyo\tぎょ\nzya\tじゃ\n\
    zyi\tじぃ\nzyu\tじゅ\nzye\tじぇ\nzyo\tじょ\ndya\tぢゃ\ndyi\tぢぃ\ndyu\tぢゅ\ndye\tぢぇ\ndyo\tぢょ\nbya\tびゃ\nbyi\tびぃ\nbyu\tびゅ\n\
    bye\tびぇ\nbyo\tびょ\npya\tぴゃ\npyi\tぴぃ\npyu\tぴゅ\npye\tぴぇ\npyo\tぴょ\ncya\tちゃ\ncyi\tちぃ\ncyu\tちゅ\ncye\tちぇ\ncyo\tちょ\n\
    jya\tじゃ\njyi\tじぃ\njyu\tじゅ\njye\tじぇ\njyo\tじょ\nsha\tしゃ\nshu\tしゅ\nsho\tしょ\nshe\tしぇ\ncha\tちゃ\nchu\tちゅ\ncho\tちょ\n\
    che\tちぇ\nja\tじゃ\nju\tじゅ\njo\tじょ\nje\tじぇ\nja\tじゃ\nnn\tん\nn'\tん\nxn\tん\nny\tny\nkk\tっk\nss\tっs\n\
    tt\tっt\nhh\tっh\nmm\tっm\nyy\tっy\nrr\tっr\nww\tっw\ngg\tっg\nzz\tっz\ndd\tっd\nbb\tっb\npp\tっp\nff\tっf\n\
    jj\tっj\nvv\tっv\ncc\tっc\nqq\tっq\nll\tっl\nxx\tっx\n-\tー\n,\t、\n.\t。\n[\t「\n]\t」\n~\t〜\n\
    /\t・\n?\t？\n!\t！\nz/\t・\nz.\t…\nz,\t‥\nzh\t←\nzj\t↓\nzk\t↑\nzl\t→\n";

/// AZIK extended romaji.
pub const AZIK_RULES: &'static str = "a\tあ\ni\tい\nu\tう\ne\tえ\no\tお\nka\tか\nki\tき\nku\tく\nke\tけ\nko\tこ\nsa\tさ\nsi\tし\n\
    su\tす\nse\tせ\nso\tそ\nta\tた\nti\tち\ntu\tつ\nte\tて\nto\tと\nna\tな\nni\tに\nnu\tぬ\nne\tね\n\
    no\tの\nha\tは\nhi\tひ\nhu\tふ\nhe\tへ\nho\tほ\nma\tま\nmi\tみ\nmu\tむ\nme\tめ\nmo\tも\nra\tら\n\
    ri\tり\nru\tる\nre\tれ\nro\tろ\nga\tが\ngi\tぎ\ngu\tぐ\nge\tげ\ngo\tご\nza\tざ\nzi\tじ\nzu\tず\n\
    ze\tぜ\nzo\tぞ\nda\tだ\ndi\tぢ\ndu\tづ\nde\tで\ndo\tど\nba\tば\nbi\tび\nbu\tぶ\nbe\tべ\nbo\tぼ\n\
    pa\tぱ\npi\tぴ\npu\tぷ\npe\tぺ\npo\tぽ\nya\tや\nyu\tゆ\nyo\tよ\nyi\tい\nye\tいぇ\nwa\tわ\nwi\tうぃ\n\
    wu\tう\nwe\tうぇ\nwo\tを\nfu\tふ\nji\tじ\nfa\tふぁ\nfi\tふぃ\nfe\tふぇ\nfo\tふぉ\nva\tゔぁ\nvi\tゔぃ\nvu\tゔ\n\
    ve\tゔぇ\nvo\tゔぉ\nca\tか\ncu\tく\nco\tこ\nqa\tくぁ\nqi\tくぃ\nqu\tく\nqe\tくぇ\nqo\tくぉ\nthi\tてぃ\ndhi\tでぃ\n\
    twu\tとぅ\ndwu\tどぅ\nxa\tぁ\nxi\tぃ\nxu\tぅ\nxe\tぇ\nxo\tぉ\nla\tぁ\nli\tぃ\nlu\tぅ\nle\tぇ\nlo\tぉ\n\
    xya\tゃ\nxyu\tゅ\nxyo\tょ\nlya\tゃ\nlyu\tゅ\nlyo\tょ\nxtu\tっ\nltu\tっ\nxwa\tゎ\nlwa\tゎ\nxka\tゕ\nxke\tゖ\n\
    kya\tきゃ\nkyi\tきぃ\nkyu\tきゅ\nkye\tきぇ\nkyo\tきょ\nsya\tしゃ\nsyi\tしぃ\nsyu\tしゅ\nsye\tしぇ\nsyo\tしょ\ntya\tちゃ\ntyi\tちぃ\n\
    tyu\tちゅ\ntye\tちぇ\ntyo\tちょ\nnya\tにゃ\nnyi\tにぃ\nnyu\tにゅ\nnye\tにぇ\nnyo\tにょ\nhya\tひゃ\nhyi\tひぃ\nhyu\tひゅ\nhye\tひぇ\n\
    hyo\tひょ\nmya\tみゃ\nmyi\tみぃ\nmyu\tみゅ\nmye\tみぇ\nmyo\tみょ\nrya\tりゃ\nryi\tりぃ\nryu\tりゅ\nrye\tりぇ\nryo\tりょ\ngya\tぎゃ\n\
    gyi\tぎぃ\ngyu\tぎゅ\ngye\tぎぇ\ngyo\tぎょ\nzya\tじゃ\nzyi\tじぃ\nzyu\tじゅ\nzye\tじぇ\nzyo\tじょ\ndya\tぢゃ\ndyi\tぢぃ\ndyu\tぢゅ\n\
    dye\tぢぇ\ndyo\tぢょ\nbya\tびゃ\nbyi\tびぃ\nbyu\tびゅ\nbye\tびぇ\nbyo\tびょ\npya\tぴゃ\npyi\tぴぃ\npyu\tぴゅ\npye\tぴぇ\npyo\tぴょ\n\
    cya\tちゃ\ncyi\tちぃ\ncyu\tちゅ\ncye\tちぇ\ncyo\tちょ\njya\tじゃ\njyi\tじぃ\njyu\tじゅ\njye\tじぇ\njyo\tじょ\nja\tじゃ\nju\tじゅ\n\
    jo\tじょ\nje\tじぇ\nja\tじゃ\nnn\tん\nkz\tかん\nkk\tきん\nkj\tくん\nkd\tけん\nkl\tこん\nkq\tかい\nkh\tくう\nkw\tけい\n\
    kp\tこう\nsz\tさん\nsk\tしん\nsj\tすん\nsd\tせん\nsl\tそん\nsq\tさい\nsh\tすう\nsw\tせい\nsp\tそう\ntz\tたん\ntk\tちん\n\
    tj\tつん\ntd\tてん\ntl\tとん\ntq\tたい\nth\tつう\ntw\tてい\ntp\tとう\nnz\tなん\nnk\tにん\nnj\tぬん\nnd\tねん\nnl\tのん\n\
    nq\tない\nnh\tぬう\nnw\tねい\nnp\tのう\nhz\tはん\nhk\tひん\nhj\tふん\nhd\tへん\nhl\tほん\nhq\tはい\nhh\tふう\nhw\tへい\n\
    hp\tほう\nmz\tまん\nmk\tみん\nmj\tむん\nmd\tめん\nml\tもん\nmq\tまい\nmh\tむう\nmw\tめい\nmp\tもう\nrz\tらん\nrk\tりん\n\
    rj\tるん\nrd\tれん\nrl\tろん\nrq\tらい\nrh\tるう\nrw\tれい\nrp\tろう\ngz\tがん\ngk\tぎん\ngj\tぐん\ngd\tげん\ngl\tごん\n\
    gq\tがい\ngh\tぐう\ngw\tげい\ngp\tごう\nzz\tざん\nzk\tじん\nzj\tずん\nzd\tぜん\nzl\tぞん\nzq\tざい\nzh\tずう\nzw\tぜい\n\
    zp\tぞう\ndz\tだん\ndk\tぢん\ndj\tづん\ndd\tでん\ndl\tどん\ndq\tだい\ndh\tづう\ndw\tでい\ndp\tどう\nbz\tばん\nbk\tびん\n\
    bj\tぶん\nbd\tべん\nbl\tぼん\nbq\tばい\nbh\tぶう\nbw\tべい\nbp\tぼう\npz\tぱん\npk\tぴん\npj\tぷん\npd\tぺん\npl\tぽん\n\
    pq\tぱい\nph\tぷう\npw\tぺい\npp\tぽう\nyz\tやん\nyj\tゆん\nyl\tよん\nyh\tゆう\nyp\tよう\nwz\tわん\nwq\tわい\nds\tです\n\
    ms\tます\n-\tー\n,\t、\n.\t。\n";

/// Kana keys of a JIS keyboard.
pub const KANA_JIS_RULES: &'static str = "1\tぬ\n2\tふ\n3\tあ\n4\tう\n5\tえ\n6\tお\n7\tや\n8\tゆ\n9\tよ\n0\tわ\n-\tほ\n^\tへ\n\
    \\\tー\nq\tた\nw\tて\ne\tい\nr\tす\nt\tか\ny\tん\nu\tな\ni\tに\no\tら\np\tせ\n@\t゛\n\
    [\t゜\na\tち\ns\tと\nd\tし\nf\tは\ng\tき\nh\tく\nj\tま\nk\tの\nl\tり\n;\tれ\n:\tけ\n\
    ]\tむ\nz\tつ\nx\tさ\nc\tそ\nv\tひ\nb\tこ\nn\tみ\nm\tも\n,\tね\n.\tる\n/\tめ\n_\tろ\n\
    か@\tが\nき@\tぎ\nく@\tぐ\nけ@\tげ\nこ@\tご\nさ@\tざ\nし@\tじ\nす@\tず\nせ@\tぜ\nそ@\tぞ\nた@\tだ\nち@\tぢ\n\
    つ@\tづ\nて@\tで\nと@\tど\nは@\tば\nひ@\tび\nふ@\tぶ\nへ@\tべ\nほ@\tぼ\nう@\tゔ\nは[\tぱ\nひ[\tぴ\nふ[\tぷ\n\
    へ[\tぺ\nほ[\tぽ\n";

/// Kana keys of a US keyboard.
pub const KANA_US_RULES: &'static str = "1\tぬ\n2\tふ\n3\tあ\n4\tう\n5\tえ\n6\tお\n7\tや\n8\tゆ\n9\tよ\n0\tわ\n-\tほ\nq\tた\n\
    w\tて\ne\tい\nr\tす\nt\tか\ny\tん\nu\tな\ni\tに\no\tら\np\tせ\na\tち\ns\tと\nd\tし\n\
    f\tは\ng\tき\nh\tく\nj\tま\nk\tの\nl\tり\n;\tれ\n:\tけ\n]\tむ\nz\tつ\nx\tさ\nc\tそ\n\
    v\tひ\nb\tこ\nn\tみ\nm\tも\n,\tね\n.\tる\n/\tめ\n「\t゛\n＝\t゜\n'\tけ\nか「\tが\nき「\tぎ\n\
    く「\tぐ\nけ「\tげ\nこ「\tご\nさ「\tざ\nし「\tじ\nす「\tず\nせ「\tぜ\nそ「\tぞ\nた「\tだ\nち「\tぢ\nつ「\tづ\nて「\tで\n\
    と「\tど\nは「\tば\nひ「\tび\nふ「\tぶ\nほ「\tぼ\nう「\tゔ\nは＝\tぱ\nひ＝\tぴ\nふ＝\tぷ\nほ＝\tぽ\n";

} // verus!
