//! The suffixes under which registries hand out names.

use crate::text::{chars_of, same_text};
use vstd::prelude::*;

verus! {

// ---- classes of names by country ----

/// The classes of names under `ac`, `al`, `ba`, `iq`, `kg`, `kz`, `sy`, `to`, `vc`, `ye`.
pub const CLASSES_AC: [&'static str; 6] = ["com", "edu", "gov", "mil", "net", "org"];

/// The classes of names under `ae`.
pub const CLASSES_AE: [&'static str; 7] = ["ac", "co", "gov", "mil", "net", "org", "sch"];

/// The classes of names under `af`, `bh`, `bm`, `bs`, `bt`, `gr`, `lb`, `lr`, `mo`, `ms`, `sb`,
/// `sc`, `sl`, `ws`.
pub const CLASSES_AF: [&'static str; 5] = ["com", "edu", "gov", "net", "org"];

/// The classes of names under `ag`.
pub const CLASSES_AG: [&'static str; 5] = ["co", "com", "net", "nom", "org"];

/// The classes of names under `ai`.
pub const CLASSES_AI: [&'static str; 4] = ["com", "net", "off", "org"];

/// The classes of names under `am`.
pub const CLASSES_AM: [&'static str; 5] = ["co", "com", "commune", "net", "org"];

/// The classes of names under `ao`.
pub const CLASSES_AO: [&'static str; 9] = [
    "co", "ed", "edu", "gov", "gv", "it", "og", "org", "pb",
];

/// The classes of names under `ar`.
pub const CLASSES_AR: [&'static str; 14] = [
    "bet", "com", "coop", "edu", "gob", "gov", "int", "mil", "musica", "mutual", "net", "org",
    "senasa", "tur",
];

/// The classes of names under `as`, `bf`, `cd`, `cx`, `cz`, `ie`, `lt`, `mr`, `sx`, `tl`.
pub const CLASSES_AS: [&'static str; 1] = ["gov"];

/// The classes of names under `at`.
pub const CLASSES_AT: [&'static str; 4] = ["ac", "co", "gv", "or"];

/// The classes of names under `au`.
pub const CLASSES_AU: [&'static str; 18] = [
    "act", "asn", "com", "conf", "edu", "gov", "id", "info", "net", "nsw", "nt", "org", "oz",
    "qld", "sa", "tas", "vic", "wa",
];

/// The classes of names under `aw`.
pub const CLASSES_AW: [&'static str; 1] = ["com"];

/// The classes of names under `az`.
pub const CLASSES_AZ: [&'static str; 13] = [
    "biz", "co", "com", "edu", "gov", "info", "int", "mil", "name", "net", "org", "pp", "pro",
];

/// The classes of names under `bb`.
pub const CLASSES_BB: [&'static str; 10] = [
    "biz", "co", "com", "edu", "gov", "info", "net", "org", "store", "tv",
];

/// The classes of names under `bd`.
pub const CLASSES_BD: [&'static str; 14] = [
    "ac", "ai", "co", "com", "edu", "gov", "id", "info", "it", "mil", "net", "org", "sch", "tv",
];

/// The classes of names under `be`.
pub const CLASSES_BE: [&'static str; 1] = ["ac"];

/// The classes of names under `bi`.
pub const CLASSES_BI: [&'static str; 5] = ["co", "com", "edu", "or", "org"];

/// The classes of names under `bj`.
pub const CLASSES_BJ: [&'static str; 20] = [
    "africa", "agro", "architectes", "assur", "avocats", "co", "com", "eco", "econo", "edu",
    "info", "loisirs", "money", "net", "org", "ote", "restaurant", "resto", "tourism", "univ",
];

/// The classes of names under `bn`, `bz`, `dm`, `gy`, `lc`.
pub const CLASSES_BN: [&'static str; 6] = ["co", "com", "edu", "gov", "net", "org"];

/// The classes of names under `bo`.
pub const CLASSES_BO: [&'static str; 41] = [
    "academia", "agro", "arte", "blog", "bolivia", "ciencia", "com", "cooperativa", "democracia",
    "deporte", "ecologia", "economia", "edu", "empresa", "gob", "indigena", "industria", "info",
    "int", "medicina", "mil", "movimiento", "musica", "natural", "net", "nombre", "noticias",
    "org", "patria", "plurinacional", "politica", "profesional", "pueblo", "revista", "salud",
    "tecnologia", "tksat", "transporte", "tv", "web", "wiki",
];

/// The classes of names under `br`.
pub const CLASSES_BR: [&'static str; 142] = [
    "9guacu", "abc", "adm", "adv", "agr", "aju", "am", "anani", "aparecida", "app", "arq", "art",
    "ato", "b", "barueri", "belem", "bet", "bhz", "bib", "bio", "blog", "bmd", "boavista", "bsb",
    "campinagrande", "campinas", "caxias", "cim", "cng", "cnt", "com", "contagem", "coop", "coz",
    "cri", "cuiaba", "curitiba", "def", "des", "det", "dev", "ecn", "eco", "edu", "emp", "enf",
    "eng", "esp", "etc", "eti", "far", "feira", "flog", "floripa", "fm", "fnd", "fortal", "fot",
    "foz", "fst", "g12", "geo", "ggf", "goiania", "gov", "gru", "imb", "ind", "inf", "jab",
    "jampa", "jdf", "joinville", "jor", "jus", "leg", "leilao", "lel", "log", "londrina",
    "macapa", "maceio", "manaus", "maringa", "mat", "med", "mil", "morena", "mp", "mus", "natal",
    "net", "niteroi", "nom", "not", "ntr", "odo", "ong", "org", "osasco", "palmas", "poa", "ppg",
    "pro", "psc", "psi", "pvh", "qsl", "radio", "rec", "recife", "rep", "ribeirao", "rio",
    "riobranco", "riopreto", "salvador", "sampa", "santamaria", "santoandre", "saobernardo",
    "saogonca", "sjc", "slg", "slz", "sorocaba", "srv", "taxi", "tc", "tec", "teo", "the", "tmp",
    "trd", "tur", "tv", "udi", "vet", "vix", "vlog", "wiki", "zlg",
];

/// The classes of names under `bw`.
pub const CLASSES_BW: [&'static str; 5] = ["ac", "co", "gov", "net", "org"];

/// The classes of names under `by`.
pub const CLASSES_BY: [&'static str; 4] = ["com", "gov", "mil", "of"];

/// The classes of names under `ca`.
pub const CLASSES_CA: [&'static str; 15] = [
    "ab", "bc", "gc", "mb", "nb", "nf", "nl", "ns", "nt", "nu", "on", "pe", "qc", "sk", "yk",
];

/// The classes of names under `ci`.
pub const CLASSES_CI: [&'static str; 13] = [
    "ac", "aeroport", "asso", "co", "com", "ed", "edu", "go", "gouv", "int", "net", "or", "org",
];

/// The classes of names under `cl`.
pub const CLASSES_CL: [&'static str; 4] = ["co", "gob", "gov", "mil"];

/// The classes of names under `cm`.
pub const CLASSES_CM: [&'static str; 4] = ["co", "com", "gov", "net"];

/// The classes of names under `cn`.
pub const CLASSES_CN: [&'static str; 41] = [
    "ac", "ah", "bj", "com", "cq", "edu", "fj", "gd", "gov", "gs", "gx", "gz", "ha", "hb", "he",
    "hi", "hk", "hl", "hn", "jl", "js", "jx", "ln", "mil", "mo", "net", "nm", "nx", "org", "qh",
    "sc", "sd", "sh", "sn", "sx", "tj", "tw", "xj", "xz", "yn", "zj",
];

/// The classes of names under `co`.
pub const CLASSES_CO: [&'static str; 13] = [
    "arts", "com", "edu", "firm", "gov", "info", "int", "mil", "net", "nom", "org", "rec", "web",
];

/// The classes of names under `cr`.
pub const CLASSES_CR: [&'static str; 7] = ["ac", "co", "ed", "fi", "go", "or", "sa"];

/// The classes of names under `cu`.
pub const CLASSES_CU: [&'static str; 8] = [
    "com", "edu", "gob", "gov", "inf", "nat", "net", "org",
];

/// The classes of names under `cv`.
pub const CLASSES_CV: [&'static str; 8] = [
    "com", "edu", "id", "int", "net", "nome", "org", "publ",
];

/// The classes of names under `cw`, `fm`, `ky`, `mt`, `vu`.
pub const CLASSES_CW: [&'static str; 4] = ["com", "edu", "net", "org"];

/// The classes of names under `cy`.
pub const CLASSES_CY: [&'static str; 12] = [
    "ac", "biz", "com", "ekloges", "gov", "ltd", "mil", "net", "org", "press", "pro", "tm",
];

/// The classes of names under `do`.
pub const CLASSES_DO: [&'static str; 10] = [
    "art", "com", "edu", "gob", "gov", "mil", "net", "org", "sld", "web",
];

/// The classes of names under `dz`.
pub const CLASSES_DZ: [&'static str; 10] = [
    "art", "asso", "com", "edu", "gov", "net", "org", "pol", "soc", "tm",
];

/// The classes of names under `ec`.
pub const CLASSES_EC: [&'static str; 51] = [
    "abg", "adm", "agron", "arqt", "art", "bar", "chef", "com", "cont", "cpa", "cue", "dent",
    "dgn", "disco", "doc", "edu", "eng", "esm", "fin", "fot", "gal", "gob", "gov", "gye", "ibr",
    "info", "k12", "lat", "loj", "med", "mil", "mktg", "mon", "net", "ntr", "odont", "org",
    "pro", "prof", "psic", "psiq", "pub", "rio", "rrpp", "sal", "tech", "tul", "tur", "uio",
    "vet", "xxx",
];

/// The classes of names under `ee`.
pub const CLASSES_EE: [&'static str; 10] = [
    "aip", "com", "edu", "fie", "gov", "lib", "med", "org", "pri", "riik",
];

/// The classes of names under `eg`.
pub const CLASSES_EG: [&'static str; 14] = [
    "ac", "com", "edu", "eun", "gov", "info", "me", "mil", "name", "net", "org", "sci", "sport",
    "tv",
];

/// The classes of names under `es`.
pub const CLASSES_ES: [&'static str; 5] = ["com", "edu", "gob", "nom", "org"];

/// The classes of names under `et`.
pub const CLASSES_ET: [&'static str; 8] = [
    "biz", "com", "edu", "gov", "info", "name", "net", "org",
];

/// The classes of names under `fi`.
pub const CLASSES_FI: [&'static str; 1] = ["aland"];

/// The classes of names under `fj`.
pub const CLASSES_FJ: [&'static str; 11] = [
    "ac", "biz", "com", "gov", "id", "info", "mil", "name", "net", "org", "pro",
];

/// The classes of names under `fr`.
pub const CLASSES_FR: [&'static str; 22] = [
    "aeroport", "asso", "avocat", "avoues", "cci", "chambagri", "chirurgiens-dentistes", "com",
    "experts-comptables", "geometre-expert", "gouv", "greta", "huissier-justice", "medecin",
    "nom", "notaires", "pharmacien", "port", "prd", "presse", "tm", "veterinaire",
];

/// The classes of names under `gd`.
pub const CLASSES_GD: [&'static str; 2] = ["edu", "gov"];

/// The classes of names under `ge`.
pub const CLASSES_GE: [&'static str; 8] = [
    "com", "edu", "gov", "mil", "net", "org", "pvt", "school",
];

/// The classes of names under `gg`, `je`.
pub const CLASSES_GG: [&'static str; 3] = ["co", "net", "org"];

/// The classes of names under `gh`.
pub const CLASSES_GH: [&'static str; 7] = ["biz", "com", "edu", "gov", "mil", "net", "org"];

/// The classes of names under `gi`.
pub const CLASSES_GI: [&'static str; 6] = ["com", "edu", "gov", "ltd", "mod", "org"];

/// The classes of names under `gl`.
pub const CLASSES_GL: [&'static str; 5] = ["co", "com", "edu", "net", "org"];

/// The classes of names under `gn`.
pub const CLASSES_GN: [&'static str; 6] = ["ac", "com", "edu", "gov", "net", "org"];

/// The classes of names under `gp`.
pub const CLASSES_GP: [&'static str; 6] = ["asso", "com", "edu", "mobi", "net", "org"];

/// The classes of names under `gt`.
pub const CLASSES_GT: [&'static str; 7] = ["com", "edu", "gob", "ind", "mil", "net", "org"];

/// The classes of names under `gu`.
pub const CLASSES_GU: [&'static str; 8] = [
    "com", "edu", "gov", "guam", "info", "net", "org", "web",
];

/// The classes of names under `hk`.
pub const CLASSES_HK: [&'static str; 6] = ["com", "edu", "gov", "idv", "net", "org"];

/// The classes of names under `hn`.
pub const CLASSES_HN: [&'static str; 6] = ["com", "edu", "gob", "mil", "net", "org"];

/// The classes of names under `hr`.
pub const CLASSES_HR: [&'static str; 4] = ["com", "from", "iz", "name"];

/// The classes of names under `ht`.
pub const CLASSES_HT: [&'static str; 17] = [
    "adult", "art", "asso", "com", "coop", "edu", "firm", "gouv", "info", "med", "net", "org",
    "perso", "pol", "pro", "rel", "shop",
];

/// The classes of names under `hu`.
pub const CLASSES_HU: [&'static str; 31] = [
    "2000", "agrar", "bolt", "casino", "city", "co", "erotica", "erotika", "film", "forum",
    "games", "hotel", "info", "ingatlan", "jogasz", "konyvelo", "lakas", "media", "news", "org",
    "priv", "reklam", "sex", "shop", "sport", "suli", "szex", "tm", "tozsde", "utazas", "video",
];

/// The classes of names under `id`.
pub const CLASSES_ID: [&'static str; 13] = [
    "ac", "biz", "co", "desa", "go", "kop", "mil", "my", "net", "or", "ponpes", "sch", "web",
];

/// The classes of names under `il`.
pub const CLASSES_IL: [&'static str; 8] = ["ac", "co", "gov", "idf", "k12", "muni", "net", "org"];

/// The classes of names under `im`.
pub const CLASSES_IM: [&'static str; 7] = ["ac", "co", "com", "net", "org", "tt", "tv"];

/// The classes of names under `in`.
pub const CLASSES_IN: [&'static str; 44] = [
    "5g", "6g", "ac", "ai", "am", "bank", "bihar", "biz", "business", "ca", "cn", "co", "com",
    "coop", "cs", "delhi", "dr", "edu", "er", "ernet", "fin", "firm", "gen", "gov", "gujarat",
    "ind", "info", "int", "internet", "io", "me", "mil", "net", "nic", "org", "pg", "post",
    "pro", "res", "travel", "tv", "uk", "up", "us",
];

/// The classes of names under `io`, `tm`.
pub const CLASSES_IO: [&'static str; 8] = ["co", "com", "edu", "gov", "mil", "net", "nom", "org"];

/// The classes of names under `ir`.
pub const CLASSES_IR: [&'static str; 7] = ["ac", "co", "gov", "id", "net", "org", "sch"];

/// The classes of names under `it`.
pub const CLASSES_IT: [&'static str; 362] = [
    "abr", "abruzzo", "ag", "agrigento", "al", "alessandria", "alto-adige", "altoadige", "an",
    "ancona", "andria-barletta-trani", "andria-trani-barletta", "andriabarlettatrani",
    "andriatranibarletta", "ao", "aosta", "aosta-valley", "aostavalley", "ap", "aq", "ar",
    "arezzo", "ascoli-piceno", "ascolipiceno", "asti", "at", "av", "avellino", "ba", "balsan",
    "bari", "barletta-trani-andria", "barlettatraniandria", "bas", "basilicata", "belluno",
    "benevento", "bergamo", "bg", "bi", "biella", "bl", "bn", "bo", "bologna", "bolzano",
    "bozen", "br", "brescia", "brindisi", "bs", "bt", "bz", "ca", "cagliari", "cal", "calabria",
    "caltanissetta", "cam", "campania", "campidano-medio", "campidanomedio", "campobasso",
    "carbonia-iglesias", "carboniaiglesias", "carrara-massa", "carraramassa", "caserta",
    "catania", "catanzaro", "cb", "ce", "cesena-forli", "cesenaforli", "ch", "chieti", "ci",
    "cl", "cn", "co", "como", "cosenza", "cr", "cremona", "crotone", "cs", "ct", "cuneo", "cz",
    "dell-ogliastra", "dellogliastra", "edu", "emilia-romagna", "emiliaromagna", "emr", "en",
    "enna", "fc", "fe", "fermo", "ferrara", "fg", "fi", "firenze", "florence", "fm", "foggia",
    "forli-cesena", "forlicesena", "fr", "friuli-v-giulia", "friuli-ve-giulia",
    "friuli-vegiulia", "friuli-venezia-giulia", "friuli-veneziagiulia", "friuli-vgiulia",
    "friuliv-giulia", "friulive-giulia", "friulivegiulia", "friulivenezia-giulia",
    "friuliveneziagiulia", "friulivgiulia", "frosinone", "fvg", "ge", "genoa", "genova", "go",
    "gorizia", "gov", "gr", "grosseto", "iglesias-carbonia", "iglesiascarbonia", "im", "imperia",
    "is", "isernia", "kr", "la-spezia", "laquila", "laspezia", "latina", "laz", "lazio", "lc",
    "le", "lecce", "lecco", "li", "lig", "liguria", "livorno", "lo", "lodi", "lom", "lombardia",
    "lombardy", "lt", "lu", "lucania", "lucca", "macerata", "mantova", "mar", "marche",
    "massa-carrara", "massacarrara", "matera", "mb", "mc", "me", "medio-campidano",
    "mediocampidano", "messina", "mi", "milan", "milano", "mn", "mo", "modena", "mol", "molise",
    "monza", "monza-brianza", "monza-e-della-brianza", "monzabrianza", "monzaebrianza",
    "monzaedellabrianza", "ms", "mt", "na", "naples", "napoli", "no", "novara", "nu", "nuoro",
    "og", "ogliastra", "olbia-tempio", "olbiatempio", "or", "oristano", "ot", "pa", "padova",
    "padua", "palermo", "parma", "pavia", "pc", "pd", "pe", "perugia", "pesaro-urbino",
    "pesarourbino", "pescara", "pg", "pi", "piacenza", "piedmont", "piemonte", "pisa", "pistoia",
    "pmn", "pn", "po", "pordenone", "potenza", "pr", "prato", "pt", "pu", "pug", "puglia", "pv",
    "pz", "ra", "ragusa", "ravenna", "rc", "re", "reggio-calabria", "reggio-emilia",
    "reggiocalabria", "reggioemilia", "rg", "ri", "rieti", "rimini", "rm", "rn", "ro", "roma",
    "rome", "rovigo", "sa", "salerno", "sar", "sardegna", "sardinia", "sassari", "savona", "si",
    "sic", "sicilia", "sicily", "siena", "siracusa", "so", "sondrio", "sp", "sr", "ss", "su",
    "sudtirol", "suedtirol", "sv", "ta", "taa", "taranto", "te", "tempio-olbia", "tempioolbia",
    "teramo", "terni", "tn", "to", "torino", "tos", "toscana", "tp", "tr",
    "trani-andria-barletta", "trani-barletta-andria", "traniandriabarletta",
    "tranibarlettaandria", "trapani", "trentino", "trentino-a-adige", "trentino-aadige",
    "trentino-alto-adige", "trentino-altoadige", "trentino-s-tirol", "trentino-stirol",
    "trentino-sud-tirol", "trentino-sudtirol", "trentino-sued-tirol", "trentino-suedtirol",
    "trentinoa-adige", "trentinoaadige", "trentinoalto-adige", "trentinoaltoadige",
    "trentinos-tirol", "trentinostirol", "trentinosud-tirol", "trentinosudtirol",
    "trentinosued-tirol", "trentinosuedtirol", "trento", "treviso", "trieste", "ts", "turin",
    "tuscany", "tv", "ud", "udine", "umb", "umbria", "urbino-pesaro", "urbinopesaro", "va",
    "valle-aosta", "valle-d-aosta", "valle-daosta", "valleaosta", "valled-aosta", "valledaosta",
    "vao", "varese", "vb", "vc", "vda", "ve", "ven", "veneto", "venezia", "venice", "verbania",
    "vercelli", "verona", "vi", "vibo-valentia", "vibovalentia", "vicenza", "viterbo", "vr",
    "vs", "vt", "vv",
];

/// The classes of names under `jo`.
pub const CLASSES_JO: [&'static str; 15] = [
    "agri", "ai", "com", "edu", "eng", "fm", "gov", "mil", "name", "net", "org", "per", "phd",
    "sch", "tv",
];

/// The classes of names under `jp`.
pub const CLASSES_JP: [&'static str; 63] = [
    "ac", "ad", "aichi", "akita", "aomori", "chiba", "co", "ed", "ehime", "fukui", "fukuoka",
    "fukushima", "gifu", "go", "gr", "gunma", "hiroshima", "hokkaido", "hyogo", "ibaraki",
    "ishikawa", "iwate", "kagawa", "kagoshima", "kanagawa", "kawasaki", "kitakyushu", "kobe",
    "kochi", "kumamoto", "kyoto", "lg", "mie", "miyagi", "miyazaki", "nagano", "nagasaki",
    "nagoya", "nara", "ne", "niigata", "oita", "okayama", "okinawa", "or", "osaka", "saga",
    "saitama", "sapporo", "sendai", "shiga", "shimane", "shizuoka", "tochigi", "tokushima",
    "tokyo", "tottori", "toyama", "wakayama", "yamagata", "yamaguchi", "yamanashi", "yokohama",
];

/// The classes of names under `ke`.
pub const CLASSES_KE: [&'static str; 9] = [
    "ac", "co", "go", "info", "me", "mobi", "ne", "or", "sc",
];

/// The classes of names under `ki`, `nr`.
pub const CLASSES_KI: [&'static str; 7] = ["biz", "com", "edu", "gov", "info", "net", "org"];

/// The classes of names under `km`.
pub const CLASSES_KM: [&'static str; 17] = [
    "ass", "asso", "com", "coop", "edu", "gouv", "gov", "medecin", "mil", "nom", "notaires",
    "org", "pharmaciens", "prd", "presse", "tm", "veterinaire",
];

/// The classes of names under `kn`.
pub const CLASSES_KN: [&'static str; 4] = ["edu", "gov", "net", "org"];

/// The classes of names under `kp`.
pub const CLASSES_KP: [&'static str; 6] = ["com", "edu", "gov", "org", "rep", "tra"];

/// The classes of names under `kr`.
pub const CLASSES_KR: [&'static str; 33] = [
    "ac", "ai", "busan", "chungbuk", "chungnam", "co", "daegu", "daejeon", "es", "gangwon", "go",
    "gwangju", "gyeongbuk", "gyeonggi", "gyeongnam", "hs", "incheon", "io", "it", "jeju",
    "jeonbuk", "jeonnam", "kg", "me", "mil", "ms", "ne", "or", "pe", "re", "sc", "seoul",
    "ulsan",
];

/// The classes of names under `kw`.
pub const CLASSES_KW: [&'static str; 7] = ["com", "edu", "emb", "gov", "ind", "net", "org"];

/// The classes of names under `la`.
pub const CLASSES_LA: [&'static str; 8] = [
    "com", "edu", "gov", "info", "int", "net", "org", "per",
];

/// The classes of names under `lk`.
pub const CLASSES_LK: [&'static str; 15] = [
    "ac", "assn", "com", "edu", "gov", "grp", "hotel", "int", "ltd", "net", "ngo", "org", "sch",
    "soc", "web",
];

/// The classes of names under `ls`.
pub const CLASSES_LS: [&'static str; 9] = [
    "ac", "biz", "co", "edu", "gov", "info", "net", "org", "sc",
];

/// The classes of names under `lv`.
pub const CLASSES_LV: [&'static str; 9] = [
    "asn", "com", "conf", "edu", "gov", "id", "mil", "net", "org",
];

/// The classes of names under `ly`.
pub const CLASSES_LY: [&'static str; 9] = [
    "com", "edu", "gov", "id", "med", "net", "org", "plc", "sch",
];

/// The classes of names under `ma`.
pub const CLASSES_MA: [&'static str; 6] = ["ac", "co", "gov", "net", "org", "press"];

/// The classes of names under `mc`.
pub const CLASSES_MC: [&'static str; 2] = ["asso", "tm"];

/// The classes of names under `me`.
pub const CLASSES_ME: [&'static str; 8] = ["ac", "co", "edu", "gov", "its", "net", "org", "priv"];

/// The classes of names under `mg`.
pub const CLASSES_MG: [&'static str; 9] = [
    "co", "com", "edu", "gov", "mil", "nom", "org", "prd", "tm",
];

/// The classes of names under `mk`.
pub const CLASSES_MK: [&'static str; 7] = ["com", "edu", "gov", "inf", "name", "net", "org"];

/// The classes of names under `ml`.
pub const CLASSES_ML: [&'static str; 13] = [
    "ac", "art", "asso", "com", "edu", "gouv", "gov", "info", "inst", "net", "org", "pr",
    "presse",
];

/// The classes of names under `mn`.
pub const CLASSES_MN: [&'static str; 3] = ["edu", "gov", "org"];

/// The classes of names under `mu`.
pub const CLASSES_MU: [&'static str; 7] = ["ac", "co", "com", "gov", "net", "or", "org"];

/// The classes of names under `mv`.
pub const CLASSES_MV: [&'static str; 14] = [
    "aero", "biz", "com", "coop", "edu", "gov", "info", "int", "mil", "museum", "name", "net",
    "org", "pro",
];

/// The classes of names under `mw`.
pub const CLASSES_MW: [&'static str; 11] = [
    "ac", "biz", "co", "com", "coop", "edu", "gov", "int", "museum", "net", "org",
];

/// The classes of names under `mx`.
pub const CLASSES_MX: [&'static str; 5] = ["com", "edu", "gob", "net", "org"];

/// The classes of names under `my`.
pub const CLASSES_MY: [&'static str; 8] = [
    "biz", "com", "edu", "gov", "mil", "name", "net", "org",
];

/// The classes of names under `mz`.
pub const CLASSES_MZ: [&'static str; 8] = ["ac", "adv", "co", "edu", "gov", "mil", "net", "org"];

/// The classes of names under `na`.
pub const CLASSES_NA: [&'static str; 20] = [
    "alt", "ca", "cc", "co", "com", "dr", "gov", "in", "info", "mobi", "mx", "name", "net", "or",
    "org", "pro", "school", "tv", "us", "ws",
];

/// The classes of names under `nc`.
pub const CLASSES_NC: [&'static str; 2] = ["asso", "nom"];

/// The classes of names under `nf`.
pub const CLASSES_NF: [&'static str; 10] = [
    "arts", "com", "firm", "info", "net", "other", "per", "rec", "store", "web",
];

/// The classes of names under `ng`.
pub const CLASSES_NG: [&'static str; 10] = [
    "com", "edu", "gov", "i", "mil", "mobi", "name", "net", "org", "sch",
];

/// The classes of names under `ni`.
pub const CLASSES_NI: [&'static str; 14] = [
    "ac", "biz", "co", "com", "edu", "gob", "in", "info", "int", "mil", "net", "nom", "org",
    "web",
];

/// The classes of names under `no`.
pub const CLASSES_NO: [&'static str; 546] = [
    "aa", "agdenes", "ah", "akershus", "aknoluokta", "akrehamn", "al", "alesund", "algard",
    "alstahaug", "alta", "alvdal", "amli", "amot", "andebu", "andoy", "aremark", "arendal",
    "arna", "as", "aseral", "asker", "askim", "askoy", "askvoll", "asnes", "audnedaln", "aukra",
    "aure", "aurland", "aurskog-holand", "austevoll", "austrheim", "averoy", "badaddja",
    "balestrand", "ballangen", "balsfjord", "bamble", "bardu", "barum", "batsfjord",
    "bearalvahki", "beardu", "beiarn", "berg", "bergen", "berlevag", "bievat", "bindal",
    "birkenes", "bjarkoy", "bjerkreim", "bjugn", "bodo", "bokn", "bomlo", "bremanger", "bronnoy",
    "bronnoysund", "brumunddal", "bryne", "bu", "budejju", "buskerud", "bygland", "bykle",
    "cahcesuolo", "davvenjarga", "davvesiida", "deatnu", "dep", "dielddanuorri", "divtasvuodna",
    "divttasvuotna", "donna", "dovre", "drammen", "drangedal", "drobak", "dyroy", "egersund",
    "eid", "eidfjord", "eidsberg", "eidskog", "eidsvoll", "eigersund", "elverum", "enebakk",
    "engerdal", "etne", "etnedal", "evenassi", "evenes", "evje-og-hornnes", "farsund", "fauske",
    "fedje", "fet", "fetsund", "fhs", "finnoy", "fitjar", "fjaler", "fjell", "fla", "flakstad",
    "flatanger", "flekkefjord", "flesberg", "flora", "floro", "fm", "folkebibl", "folldal",
    "forde", "forsand", "fosnes", "frana", "fredrikstad", "frei", "frogn", "froland", "frosta",
    "froya", "fuoisku", "fuossko", "fusa", "fylkeskommune", "fyresdal", "gaivuotna", "galsa",
    "gamvik", "gangaviika", "gaular", "gausdal", "giehtavuoatna", "gildeskal", "giske",
    "gjemnes", "gjerdrum", "gjerstad", "gjesdal", "gjovik", "gloppen", "gol", "gran", "grane",
    "granvin", "gratangen", "grimstad", "grong", "grue", "gs", "gulen", "guovdageaidnu", "ha",
    "habmer", "hadsel", "hagebostad", "halden", "halsa", "hamar", "hamaroy", "hammarfeasta",
    "hammerfest", "hapmir", "haram", "hareid", "harstad", "hasvik", "hattfjelldal", "haugesund",
    "hedmark", "hemne", "hemnes", "hemsedal", "herad", "hitra", "hjartdal", "hjelmeland", "hl",
    "hm", "hobol", "hof", "hokksund", "hol", "hole", "holmestrand", "holtalen", "honefoss",
    "hordaland", "hornindal", "horten", "hoyanger", "hoylandet", "hurdal", "hurum", "hvaler",
    "hyllestad", "ibestad", "idrett", "inderoy", "iveland", "ivgu", "jan-mayen", "jessheim",
    "jevnaker", "jolster", "jondal", "jorpeland", "kafjord", "karasjohka", "karasjok", "karlsoy",
    "karmoy", "kautokeino", "kirkenes", "klabu", "klepp", "kommune", "kongsberg", "kongsvinger",
    "kopervik", "kraanghke", "kragero", "kristiansand", "kristiansund", "krodsherad",
    "krokstadelva", "kvafjord", "kvalsund", "kvam", "kvanangen", "kvinesdal", "kvinnherad",
    "kviteseid", "kvitsoy", "laakesvuemie", "lahppi", "langevag", "lardal", "larvik", "lavagis",
    "lavangen", "leangaviika", "lebesby", "leikanger", "leirfjord", "leirvik", "leka", "leksvik",
    "lenvik", "lerdal", "lesja", "levanger", "lier", "lierne", "lillehammer", "lillesand",
    "lindas", "lindesnes", "loabat", "lodingen", "lom", "loppa", "lorenskog", "loten", "lund",
    "lunner", "luroy", "luster", "lyngdal", "lyngen", "malatvuopmi", "malselv", "malvik",
    "mandal", "marker", "marnardal", "masfjorden", "masoy", "matta-varjjat", "meland", "meldal",
    "melhus", "meloy", "meraker", "midsund", "midtre-gauldal", "mil", "mjondalen", "mo-i-rana",
    "moareke", "modalen", "modum", "molde", "more-og-romsdal", "mosjoen", "moskenes", "moss",
    "mosvik", "mr", "muosat", "museum", "naamesjevuemie", "namdalseid", "namsos", "namsskogan",
    "nannestad", "naroy", "narviika", "narvik", "naustdal", "navuotna", "nesna", "nesodden",
    "nesoddtangen", "nesseby", "nesset", "nissedal", "nittedal", "nl", "nord-aurdal",
    "nord-fron", "nord-odal", "norddal", "nordkapp", "nordland", "nordre-land", "nordreisa",
    "nore-og-uvdal", "notodden", "notteroy", "nt", "odda", "of", "oksnes", "ol", "omasvuotna",
    "oppdal", "oppegard", "orkanger", "orkdal", "orland", "orskog", "orsta", "osen", "oslo",
    "osoyro", "osteroy", "ostfold", "ostre-toten", "overhalla", "ovre-eiker", "oyer", "oygarden",
    "oystre-slidre", "porsanger", "porsangu", "porsgrunn", "priv", "rade", "radoy",
    "rahkkeravju", "raholt", "raisa", "rakkestad", "ralingen", "rana", "randaberg", "rauma",
    "rendalen", "rennebu", "rennesoy", "rindal", "ringebu", "ringerike", "ringsaker", "risor",
    "rissa", "rl", "roan", "rodoy", "rollag", "romsa", "romskog", "roros", "rost", "royken",
    "royrvik", "ruovat", "rygge", "salangen", "salat", "saltdal", "samnanger", "sandefjord",
    "sandnes", "sandnessjoen", "sandoy", "sarpsborg", "sauda", "sauherad", "sel", "selbu",
    "selje", "seljord", "sf", "siellak", "sigdal", "siljan", "sirdal", "skanit", "skanland",
    "skaun", "skedsmo", "skedsmokorset", "ski", "skien", "skierva", "skiptvet", "skjak",
    "skjervoy", "skodje", "slattum", "smola", "snaase", "snasa", "snillfjord", "snoasa",
    "sogndal", "sogne", "sokndal", "sola", "solund", "somna", "sondre-land", "songdalen",
    "sor-aurdal", "sor-fron", "sor-odal", "sor-varanger", "sorfold", "sorreisa", "sortland",
    "sorum", "spjelkavik", "spydeberg", "st", "stange", "stat", "stathelle", "stavanger",
    "stavern", "steigen", "steinkjer", "stjordal", "stjordalshalsen", "stokke", "stor-elvdal",
    "stord", "stordal", "storfjord", "strand", "stranda", "stryn", "sula", "suldal", "sund",
    "sunndal", "surnadal", "svalbard", "sveio", "svelvik", "sykkylven", "tana", "tananger",
    "telemark", "time", "tingvoll", "tinn", "tjeldsund", "tjome", "tm", "tokke", "tolga",
    "tonsberg", "torsken", "tr", "trana", "tranby", "tranoy", "troandin", "trogstad", "tromsa",
    "tromso", "trondheim", "trysil", "tvedestrand", "tydal", "tynset", "tysfjord", "tysnes",
    "tysvar", "ullensaker", "ullensvang", "ulvik", "unjarga", "utsira", "va", "vaapste", "vadso",
    "vaga", "vagan", "vagsoy", "vaksdal", "valle", "vang", "vanylven", "vardo", "varggat",
    "varoy", "vefsn", "vega", "vegarshei", "vennesla", "verdal", "verran", "vestby", "vestfold",
    "vestnes", "vestre-slidre", "vestre-toten", "vestvagoy", "vevelstad", "vf", "vgs", "vik",
    "vikna", "vindafjord", "voagat", "volda", "voss", "vossevangen",
];

/// The classes of names under `nz`.
pub const CLASSES_NZ: [&'static str; 15] = [
    "ac", "co", "cri", "geek", "gen", "govt", "health", "iwi", "kiwi", "maori", "mil", "net",
    "org", "parliament", "school",
];

/// The classes of names under `om`.
pub const CLASSES_OM: [&'static str; 9] = [
    "co", "com", "edu", "gov", "med", "museum", "net", "org", "pro",
];

/// The classes of names under `pa`.
pub const CLASSES_PA: [&'static str; 11] = [
    "abo", "ac", "com", "edu", "gob", "ing", "med", "net", "nom", "org", "sld",
];

/// The classes of names under `pe`.
pub const CLASSES_PE: [&'static str; 7] = ["com", "edu", "gob", "mil", "net", "nom", "org"];

/// The classes of names under `pf`.
pub const CLASSES_PF: [&'static str; 3] = ["com", "edu", "org"];

/// The classes of names under `ph`.
pub const CLASSES_PH: [&'static str; 8] = ["com", "edu", "gov", "i", "mil", "net", "ngo", "org"];

/// The classes of names under `pk`.
pub const CLASSES_PK: [&'static str; 16] = [
    "ac", "biz", "com", "edu", "fam", "gkp", "gob", "gog", "gok", "gop", "gos", "gov", "info",
    "net", "org", "web",
];

/// The classes of names under `pl`.
pub const CLASSES_PL: [&'static str; 153] = [
    "agro", "aid", "atm", "augustow", "auto", "babia-gora", "bedzin", "beskidy", "bialowieza",
    "bialystok", "bielawa", "bieszczady", "biz", "boleslawiec", "bydgoszcz", "bytom", "cieszyn",
    "com", "czeladz", "czest", "dlugoleka", "edu", "elblag", "elk", "glogow", "gmina", "gniezno",
    "gorlice", "gov", "grajewo", "gsm", "ilawa", "info", "jaworzno", "jelenia-gora", "jgora",
    "kalisz", "karpacz", "kartuzy", "kaszuby", "katowice", "kazimierz-dolny", "kepno", "ketrzyn",
    "klodzko", "kobierzyce", "kolobrzeg", "konin", "konskowola", "kutno", "lapy", "lebork",
    "legnica", "lezajsk", "limanowa", "lomza", "lowicz", "lubin", "lukow", "mail", "malbork",
    "malopolska", "mazowsze", "mazury", "media", "miasta", "mielec", "mielno", "mil", "mragowo",
    "naklo", "net", "nieruchomosci", "nom", "nowaruda", "nysa", "olawa", "olecko", "olkusz",
    "olsztyn", "opoczno", "opole", "org", "ostroda", "ostroleka", "ostrowiec", "ostrowwlkp",
    "pc", "pila", "pisz", "podhale", "podlasie", "polkowice", "pomorskie", "pomorze", "powiat",
    "priv", "prochowice", "pruszkow", "przeworsk", "pulawy", "radom", "rawa-maz", "realestate",
    "rel", "rybnik", "rzeszow", "sanok", "sejny", "sex", "shop", "sklep", "skoczow", "slask",
    "slupsk", "sos", "sosnowiec", "stalowa-wola", "starachowice", "stargard", "suwalki",
    "swidnica", "swiebodzin", "swinoujscie", "szczecin", "szczytno", "szkola", "targi",
    "tarnobrzeg", "tgory", "tm", "tourism", "travel", "turek", "turystyka", "tychy", "ustka",
    "walbrzych", "warmia", "warszawa", "waw", "wegrow", "wielun", "wlocl", "wloclawek",
    "wodzislaw", "wolomin", "wroclaw", "zachpomor", "zagan", "zarow", "zgora", "zgorzelec",
];

/// The classes of names under `pn`.
pub const CLASSES_PN: [&'static str; 5] = ["co", "edu", "gov", "net", "org"];

/// The classes of names under `pr`.
pub const CLASSES_PR: [&'static str; 13] = [
    "ac", "biz", "com", "edu", "est", "gov", "info", "isla", "name", "net", "org", "pro", "prof",
];

/// The classes of names under `ps`.
pub const CLASSES_PS: [&'static str; 7] = ["com", "edu", "gov", "net", "org", "plo", "sec"];

/// The classes of names under `pt`.
pub const CLASSES_PT: [&'static str; 8] = [
    "com", "edu", "gov", "int", "net", "nome", "org", "publ",
];

/// The classes of names under `pw`.
pub const CLASSES_PW: [&'static str; 6] = ["belau", "co", "ed", "go", "ne", "or"];

/// The classes of names under `py`.
pub const CLASSES_PY: [&'static str; 7] = ["com", "coop", "edu", "gov", "mil", "net", "org"];

/// The classes of names under `qa`.
pub const CLASSES_QA: [&'static str; 8] = [
    "com", "edu", "gov", "mil", "name", "net", "org", "sch",
];

/// The classes of names under `re`.
pub const CLASSES_RE: [&'static str; 3] = ["asso", "com", "nom"];

/// The classes of names under `ro`.
pub const CLASSES_RO: [&'static str; 11] = [
    "arts", "com", "firm", "info", "nom", "nt", "org", "rec", "store", "tm", "www",
];

/// The classes of names under `rs`.
pub const CLASSES_RS: [&'static str; 6] = ["ac", "co", "edu", "gov", "in", "org"];

/// The classes of names under `ru`.
pub const CLASSES_RU: [&'static str; 5] = ["ac", "edu", "gov", "int", "mil"];

/// The classes of names under `rw`.
pub const CLASSES_RW: [&'static str; 7] = ["ac", "co", "coop", "gov", "mil", "net", "org"];

/// The classes of names under `sa`.
pub const CLASSES_SA: [&'static str; 8] = [
    "com", "edu", "gov", "med", "net", "org", "pub", "sch",
];

/// The classes of names under `sd`.
pub const CLASSES_SD: [&'static str; 8] = [
    "com", "edu", "gov", "info", "med", "net", "org", "tv",
];

/// The classes of names under `se`.
pub const CLASSES_SE: [&'static str; 39] = [
    "a", "ac", "b", "bd", "brand", "c", "d", "e", "f", "fh", "fhsk", "fhv", "g", "h", "i", "k",
    "komforb", "kommunalforbund", "komvux", "l", "lanbib", "m", "n", "naturbruksgymn", "o",
    "org", "p", "parti", "pp", "press", "r", "s", "t", "tm", "u", "w", "x", "y", "z",
];

/// The classes of names under `sg`.
pub const CLASSES_SG: [&'static str; 6] = ["com", "edu", "gov", "net", "org", "per"];

/// The classes of names under `sh`.
pub const CLASSES_SH: [&'static str; 5] = ["com", "gov", "mil", "net", "org"];

/// The classes of names under `sn`.
pub const CLASSES_SN: [&'static str; 7] = ["art", "com", "edu", "gouv", "org", "perso", "univ"];

/// The classes of names under `so`.
pub const CLASSES_SO: [&'static str; 6] = ["com", "edu", "gov", "me", "net", "org"];

/// The classes of names under `ss`.
pub const CLASSES_SS: [&'static str; 9] = [
    "biz", "co", "com", "edu", "gov", "me", "net", "org", "sch",
];

/// The classes of names under `st`.
pub const CLASSES_ST: [&'static str; 12] = [
    "co", "com", "consulado", "edu", "embaixada", "gov", "mil", "net", "org", "principe",
    "saotome", "store",
];

/// The classes of names under `sv`.
pub const CLASSES_SV: [&'static str; 5] = ["com", "edu", "gob", "org", "red"];

/// The classes of names under `sz`.
pub const CLASSES_SZ: [&'static str; 3] = ["ac", "co", "org"];

/// The classes of names under `th`.
pub const CLASSES_TH: [&'static str; 7] = ["ac", "co", "go", "in", "mi", "net", "or"];

/// The classes of names under `tj`.
pub const CLASSES_TJ: [&'static str; 15] = [
    "ac", "biz", "co", "com", "edu", "go", "gov", "int", "mil", "name", "net", "nic", "org",
    "test", "web",
];

/// The classes of names under `tn`.
pub const CLASSES_TN: [&'static str; 20] = [
    "agrinet", "com", "defense", "edunet", "ens", "fin", "gov", "ind", "info", "intl", "mincom",
    "nat", "net", "org", "perso", "rnrt", "rns", "rnu", "tourism", "turen",
];

/// The classes of names under `tr`.
pub const CLASSES_TR: [&'static str; 22] = [
    "av", "bbs", "bel", "biz", "com", "dr", "edu", "gen", "gov", "info", "k12", "kep", "mil",
    "name", "nc", "net", "org", "pol", "tel", "tsk", "tv", "web",
];

/// The classes of names under `tt`.
pub const CLASSES_TT: [&'static str; 17] = [
    "aero", "biz", "co", "com", "coop", "edu", "gov", "info", "int", "jobs", "mobi", "museum",
    "name", "net", "org", "pro", "travel",
];

/// The classes of names under `tw`.
pub const CLASSES_TW: [&'static str; 10] = [
    "club", "com", "ebiz", "edu", "game", "gov", "idv", "mil", "net", "org",
];

/// The classes of names under `tz`.
pub const CLASSES_TZ: [&'static str; 12] = [
    "ac", "co", "go", "hotel", "info", "me", "mil", "mobi", "ne", "or", "sc", "tv",
];

/// The classes of names under `ua`.
pub const CLASSES_UA: [&'static str; 78] = [
    "cherkassy", "cherkasy", "chernigov", "chernihiv", "chernivtsi", "chernovtsy", "ck", "cn",
    "com", "cr", "crimea", "cv", "dn", "dnepropetrovsk", "dnipropetrovsk", "donetsk", "dp",
    "edu", "gov", "if", "in", "ivano-frankivsk", "kh", "kharkiv", "kharkov", "kherson",
    "khmelnitskiy", "khmelnytskyi", "kiev", "kirovograd", "km", "kr", "krym", "ks", "kv", "kyiv",
    "lg", "lt", "lugansk", "luhansk", "lutsk", "lv", "lviv", "mk", "mykolaiv", "net", "nikolaev",
    "od", "odesa", "odessa", "org", "pl", "poltava", "rivne", "rovno", "rv", "sb", "sebastopol",
    "sevastopol", "sm", "sumy", "te", "ternopil", "uz", "uzhgorod", "uzhhorod", "vinnica",
    "vinnytsia", "vn", "volyn", "yalta", "zakarpattia", "zaporizhzhe", "zaporizhzhia",
    "zhitomir", "zhytomyr", "zp", "zt",
];

/// The classes of names under `ug`.
pub const CLASSES_UG: [&'static str; 12] = [
    "ac", "co", "com", "edu", "go", "gov", "mil", "ne", "or", "org", "sc", "us",
];

/// The classes of names under `uk`.
pub const CLASSES_UK: [&'static str; 11] = [
    "ac", "co", "gov", "ltd", "me", "net", "nhs", "org", "plc", "police", "sch",
];

/// The classes of names under `us`.
pub const CLASSES_US: [&'static str; 60] = [
    "ak", "al", "ar", "as", "az", "ca", "co", "ct", "dc", "de", "dni", "fed", "fl", "ga", "gu",
    "hi", "ia", "id", "il", "in", "isa", "kids", "ks", "ky", "la", "ma", "md", "me", "mi", "mn",
    "mo", "ms", "mt", "nc", "nd", "ne", "nh", "nj", "nm", "nsn", "nv", "ny", "oh", "ok", "or",
    "pa", "pr", "ri", "sc", "sd", "tn", "tx", "ut", "va", "vi", "vt", "wa", "wi", "wv", "wy",
];

/// The classes of names under `uy`.
pub const CLASSES_UY: [&'static str; 6] = ["com", "edu", "gub", "mil", "net", "org"];

/// The classes of names under `uz`.
pub const CLASSES_UZ: [&'static str; 4] = ["co", "com", "net", "org"];

/// The classes of names under `ve`.
pub const CLASSES_VE: [&'static str; 22] = [
    "arts", "bib", "co", "com", "e12", "edu", "emprende", "firm", "gob", "gov", "inf", "info",
    "int", "mil", "net", "nom", "org", "rar", "rec", "store", "tec", "web",
];

/// The classes of names under `vi`.
pub const CLASSES_VI: [&'static str; 5] = ["co", "com", "k12", "net", "org"];

/// The classes of names under `vn`.
pub const CLASSES_VN: [&'static str; 78] = [
    "ac", "ai", "angiang", "bacgiang", "backan", "baclieu", "bacninh", "baria-vungtau", "bentre",
    "binhdinh", "binhduong", "binhphuoc", "binhthuan", "biz", "camau", "cantho", "caobang",
    "com", "daklak", "daknong", "danang", "dienbien", "dongnai", "dongthap", "edu", "gialai",
    "gov", "hagiang", "haiduong", "haiphong", "hanam", "hanoi", "hatinh", "haugiang", "health",
    "hoabinh", "hungyen", "id", "info", "int", "io", "khanhhoa", "kiengiang", "kontum",
    "laichau", "lamdong", "langson", "laocai", "longan", "namdinh", "name", "net", "nghean",
    "ninhbinh", "ninhthuan", "org", "phutho", "phuyen", "pro", "quangbinh", "quangnam",
    "quangngai", "quangninh", "quangtri", "soctrang", "sonla", "tayninh", "thaibinh",
    "thainguyen", "thanhhoa", "thanhphohochiminh", "thuathienhue", "tiengiang", "travinh",
    "tuyenquang", "vinhlong", "vinhphuc", "yenbai",
];

/// The classes of names under `za`.
pub const CLASSES_ZA: [&'static str; 18] = [
    "ac", "agric", "alt", "co", "edu", "gov", "grondar", "law", "mil", "net", "ngo", "nic",
    "nis", "nom", "org", "school", "tm", "web",
];

/// The classes of names under `zm`.
pub const CLASSES_ZM: [&'static str; 11] = [
    "ac", "biz", "co", "com", "edu", "gov", "info", "mil", "net", "org", "sch",
];

/// The classes of names under `zw`.
pub const CLASSES_ZW: [&'static str; 5] = ["ac", "co", "gov", "mil", "org"];

/// A list holds a label.
pub open spec fn lists(list: Seq<&'static str>, label: Seq<char>) -> bool {
    exists|i: int| 0 <= i < list.len() && (#[trigger] list[i])@ == label
}

fn listed(list: &[&'static str], label: &str) -> (r: bool)
    ensures
        r == lists(list@, label@),
{
    let mut i: usize = 0;
    while i < list.len()
        invariant
            i <= list@.len(),
            forall|j: int| 0 <= j < i ==> (#[trigger] list@[j])@ != label@,
        decreases list@.len() - i,
    {
        if same_text(list[i], label) {
            assert(list@[i as int]@ == label@);
            return true;
        }
        i += 1;
    }
    false
}

/// A registry of a country hands out names under this label, as it does under the country's own.
/// The tables hold the classes of names that the countries publish, in their ASCII forms. Some
/// countries have a class for each character, or for whatever stands before their own label.
#[verifier::opaque]
pub open spec fn is_class_label(country: Seq<char>, label: Seq<char>) -> bool {
    match (country[0], country[1]) {
        ('a', 'c') | ('a', 'l') | ('b', 'a') | ('i', 'q')
        | ('k', 'g') | ('k', 'z') | ('s', 'y') | ('t', 'o')
        | ('v', 'c') | ('y', 'e') => lists(CLASSES_AC@, label),
        ('a', 'e') => lists(CLASSES_AE@, label),
        ('a', 'f') | ('b', 'h') | ('b', 'm') | ('b', 's')
        | ('b', 't') | ('g', 'r') | ('l', 'b') | ('l', 'r')
        | ('m', 'o') | ('m', 's') | ('s', 'b') | ('s', 'c')
        | ('s', 'l') | ('w', 's') => lists(CLASSES_AF@, label),
        ('a', 'g') => lists(CLASSES_AG@, label),
        ('a', 'i') => lists(CLASSES_AI@, label),
        ('a', 'm') => lists(CLASSES_AM@, label),
        ('a', 'o') => lists(CLASSES_AO@, label),
        ('a', 'r') => lists(CLASSES_AR@, label),
        ('a', 's') | ('b', 'f') | ('c', 'd') | ('c', 'x')
        | ('c', 'z') | ('i', 'e') | ('l', 't') | ('m', 'r')
        | ('s', 'x') | ('t', 'l') => lists(CLASSES_AS@, label),
        ('a', 't') => lists(CLASSES_AT@, label),
        ('a', 'u') => lists(CLASSES_AU@, label),
        ('a', 'w') => lists(CLASSES_AW@, label),
        ('a', 'z') => lists(CLASSES_AZ@, label),
        ('b', 'b') => lists(CLASSES_BB@, label),
        ('b', 'd') => lists(CLASSES_BD@, label),
        ('b', 'e') => lists(CLASSES_BE@, label),
        ('b', 'i') => lists(CLASSES_BI@, label),
        ('b', 'j') => lists(CLASSES_BJ@, label),
        ('b', 'n') | ('b', 'z') | ('d', 'm') | ('g', 'y')
        | ('l', 'c') => lists(CLASSES_BN@, label),
        ('b', 'o') => lists(CLASSES_BO@, label),
        ('b', 'r') => lists(CLASSES_BR@, label),
        ('b', 'w') => lists(CLASSES_BW@, label),
        ('b', 'y') => lists(CLASSES_BY@, label),
        ('c', 'a') => lists(CLASSES_CA@, label),
        ('c', 'i') => lists(CLASSES_CI@, label),
        ('c', 'l') => lists(CLASSES_CL@, label),
        ('c', 'm') => lists(CLASSES_CM@, label),
        ('c', 'n') => lists(CLASSES_CN@, label),
        ('c', 'o') => lists(CLASSES_CO@, label),
        ('c', 'r') => lists(CLASSES_CR@, label),
        ('c', 'u') => lists(CLASSES_CU@, label),
        ('c', 'v') => lists(CLASSES_CV@, label),
        ('c', 'w') | ('f', 'm') | ('k', 'y') | ('m', 't')
        | ('v', 'u') => lists(CLASSES_CW@, label),
        ('c', 'y') => lists(CLASSES_CY@, label),
        ('d', 'o') => lists(CLASSES_DO@, label),
        ('d', 'z') => lists(CLASSES_DZ@, label),
        ('e', 'c') => lists(CLASSES_EC@, label),
        ('e', 'e') => lists(CLASSES_EE@, label),
        ('e', 'g') => lists(CLASSES_EG@, label),
        ('e', 's') => lists(CLASSES_ES@, label),
        ('e', 't') => lists(CLASSES_ET@, label),
        ('f', 'i') => lists(CLASSES_FI@, label),
        ('f', 'j') => lists(CLASSES_FJ@, label),
        ('f', 'r') => lists(CLASSES_FR@, label),
        ('g', 'd') => lists(CLASSES_GD@, label),
        ('g', 'e') => lists(CLASSES_GE@, label),
        ('g', 'g') | ('j', 'e') => lists(CLASSES_GG@, label),
        ('g', 'h') => lists(CLASSES_GH@, label),
        ('g', 'i') => lists(CLASSES_GI@, label),
        ('g', 'l') => lists(CLASSES_GL@, label),
        ('g', 'n') => lists(CLASSES_GN@, label),
        ('g', 'p') => lists(CLASSES_GP@, label),
        ('g', 't') => lists(CLASSES_GT@, label),
        ('g', 'u') => lists(CLASSES_GU@, label),
        ('h', 'k') => lists(CLASSES_HK@, label),
        ('h', 'n') => lists(CLASSES_HN@, label),
        ('h', 'r') => lists(CLASSES_HR@, label),
        ('h', 't') => lists(CLASSES_HT@, label),
        ('h', 'u') => lists(CLASSES_HU@, label),
        ('i', 'd') => lists(CLASSES_ID@, label),
        ('i', 'l') => lists(CLASSES_IL@, label),
        ('i', 'm') => lists(CLASSES_IM@, label),
        ('i', 'n') => lists(CLASSES_IN@, label),
        ('i', 'o') | ('t', 'm') => lists(CLASSES_IO@, label),
        ('i', 'r') => lists(CLASSES_IR@, label),
        ('i', 't') => lists(CLASSES_IT@, label),
        ('j', 'o') => lists(CLASSES_JO@, label),
        ('j', 'p') => lists(CLASSES_JP@, label),
        ('k', 'e') => lists(CLASSES_KE@, label),
        ('k', 'i') | ('n', 'r') => lists(CLASSES_KI@, label),
        ('k', 'm') => lists(CLASSES_KM@, label),
        ('k', 'n') => lists(CLASSES_KN@, label),
        ('k', 'p') => lists(CLASSES_KP@, label),
        ('k', 'r') => lists(CLASSES_KR@, label),
        ('k', 'w') => lists(CLASSES_KW@, label),
        ('l', 'a') => lists(CLASSES_LA@, label),
        ('l', 'k') => lists(CLASSES_LK@, label),
        ('l', 's') => lists(CLASSES_LS@, label),
        ('l', 'v') => lists(CLASSES_LV@, label),
        ('l', 'y') => lists(CLASSES_LY@, label),
        ('m', 'a') => lists(CLASSES_MA@, label),
        ('m', 'c') => lists(CLASSES_MC@, label),
        ('m', 'e') => lists(CLASSES_ME@, label),
        ('m', 'g') => lists(CLASSES_MG@, label),
        ('m', 'k') => lists(CLASSES_MK@, label),
        ('m', 'l') => lists(CLASSES_ML@, label),
        ('m', 'n') => lists(CLASSES_MN@, label),
        ('m', 'u') => lists(CLASSES_MU@, label),
        ('m', 'v') => lists(CLASSES_MV@, label),
        ('m', 'w') => lists(CLASSES_MW@, label),
        ('m', 'x') => lists(CLASSES_MX@, label),
        ('m', 'y') => lists(CLASSES_MY@, label),
        ('m', 'z') => lists(CLASSES_MZ@, label),
        ('n', 'a') => lists(CLASSES_NA@, label),
        ('n', 'c') => lists(CLASSES_NC@, label),
        ('n', 'f') => lists(CLASSES_NF@, label),
        ('n', 'g') => lists(CLASSES_NG@, label),
        ('n', 'i') => lists(CLASSES_NI@, label),
        ('n', 'o') => lists(CLASSES_NO@, label),
        ('n', 'z') => lists(CLASSES_NZ@, label),
        ('o', 'm') => lists(CLASSES_OM@, label),
        ('p', 'a') => lists(CLASSES_PA@, label),
        ('p', 'e') => lists(CLASSES_PE@, label),
        ('p', 'f') => lists(CLASSES_PF@, label),
        ('p', 'h') => lists(CLASSES_PH@, label),
        ('p', 'k') => lists(CLASSES_PK@, label),
        ('p', 'l') => lists(CLASSES_PL@, label),
        ('p', 'n') => lists(CLASSES_PN@, label),
        ('p', 'r') => lists(CLASSES_PR@, label),
        ('p', 's') => lists(CLASSES_PS@, label),
        ('p', 't') => lists(CLASSES_PT@, label),
        ('p', 'w') => lists(CLASSES_PW@, label),
        ('p', 'y') => lists(CLASSES_PY@, label),
        ('q', 'a') => lists(CLASSES_QA@, label),
        ('r', 'e') => lists(CLASSES_RE@, label),
        ('r', 'o') => lists(CLASSES_RO@, label),
        ('r', 's') => lists(CLASSES_RS@, label),
        ('r', 'u') => lists(CLASSES_RU@, label),
        ('r', 'w') => lists(CLASSES_RW@, label),
        ('s', 'a') => lists(CLASSES_SA@, label),
        ('s', 'd') => lists(CLASSES_SD@, label),
        ('s', 'e') => lists(CLASSES_SE@, label),
        ('s', 'g') => lists(CLASSES_SG@, label),
        ('s', 'h') => lists(CLASSES_SH@, label),
        ('s', 'n') => lists(CLASSES_SN@, label),
        ('s', 'o') => lists(CLASSES_SO@, label),
        ('s', 's') => lists(CLASSES_SS@, label),
        ('s', 't') => lists(CLASSES_ST@, label),
        ('s', 'v') => lists(CLASSES_SV@, label),
        ('s', 'z') => lists(CLASSES_SZ@, label),
        ('t', 'h') => lists(CLASSES_TH@, label),
        ('t', 'j') => lists(CLASSES_TJ@, label),
        ('t', 'n') => lists(CLASSES_TN@, label),
        ('t', 'r') => lists(CLASSES_TR@, label),
        ('t', 't') => lists(CLASSES_TT@, label),
        ('t', 'w') => lists(CLASSES_TW@, label),
        ('t', 'z') => lists(CLASSES_TZ@, label),
        ('u', 'a') => lists(CLASSES_UA@, label),
        ('u', 'g') => lists(CLASSES_UG@, label),
        ('u', 'k') => lists(CLASSES_UK@, label),
        ('u', 's') => lists(CLASSES_US@, label),
        ('u', 'y') => lists(CLASSES_UY@, label),
        ('u', 'z') => lists(CLASSES_UZ@, label),
        ('v', 'e') => lists(CLASSES_VE@, label),
        ('v', 'i') => lists(CLASSES_VI@, label),
        ('v', 'n') => lists(CLASSES_VN@, label),
        ('z', 'a') => lists(CLASSES_ZA@, label),
        ('z', 'm') => lists(CLASSES_ZM@, label),
        ('z', 'w') => lists(CLASSES_ZW@, label),
        ('b', 'g') => label.len() == 1,
        ('c', 'k') => label != "www"@,
        ('e', 'r') | ('f', 'k') | ('j', 'm') | ('k', 'h') | ('m', 'm') | ('n', 'p')
        | ('p', 'g') => true,
        _ => false,
    }
}

/// Tells whether a registry of a country hands out names under this label.
pub fn class_label(country: &str, label: &str) -> (r: bool)
    requires
        country@.len() == 2,
    ensures
        r == is_class_label(country@, label@),
{
    reveal(is_class_label);
    let c = chars_of(country);
    match (c[0], c[1]) {
        ('a', 'c') | ('a', 'l') | ('b', 'a') | ('i', 'q')
        | ('k', 'g') | ('k', 'z') | ('s', 'y') | ('t', 'o')
        | ('v', 'c') | ('y', 'e') => listed(&CLASSES_AC, label),
        ('a', 'e') => listed(&CLASSES_AE, label),
        ('a', 'f') | ('b', 'h') | ('b', 'm') | ('b', 's')
        | ('b', 't') | ('g', 'r') | ('l', 'b') | ('l', 'r')
        | ('m', 'o') | ('m', 's') | ('s', 'b') | ('s', 'c')
        | ('s', 'l') | ('w', 's') => listed(&CLASSES_AF, label),
        ('a', 'g') => listed(&CLASSES_AG, label),
        ('a', 'i') => listed(&CLASSES_AI, label),
        ('a', 'm') => listed(&CLASSES_AM, label),
        ('a', 'o') => listed(&CLASSES_AO, label),
        ('a', 'r') => listed(&CLASSES_AR, label),
        ('a', 's') | ('b', 'f') | ('c', 'd') | ('c', 'x')
        | ('c', 'z') | ('i', 'e') | ('l', 't') | ('m', 'r')
        | ('s', 'x') | ('t', 'l') => listed(&CLASSES_AS, label),
        ('a', 't') => listed(&CLASSES_AT, label),
        ('a', 'u') => listed(&CLASSES_AU, label),
        ('a', 'w') => listed(&CLASSES_AW, label),
        ('a', 'z') => listed(&CLASSES_AZ, label),
        ('b', 'b') => listed(&CLASSES_BB, label),
        ('b', 'd') => listed(&CLASSES_BD, label),
        ('b', 'e') => listed(&CLASSES_BE, label),
        ('b', 'i') => listed(&CLASSES_BI, label),
        ('b', 'j') => listed(&CLASSES_BJ, label),
        ('b', 'n') | ('b', 'z') | ('d', 'm') | ('g', 'y')
        | ('l', 'c') => listed(&CLASSES_BN, label),
        ('b', 'o') => listed(&CLASSES_BO, label),
        ('b', 'r') => listed(&CLASSES_BR, label),
        ('b', 'w') => listed(&CLASSES_BW, label),
        ('b', 'y') => listed(&CLASSES_BY, label),
        ('c', 'a') => listed(&CLASSES_CA, label),
        ('c', 'i') => listed(&CLASSES_CI, label),
        ('c', 'l') => listed(&CLASSES_CL, label),
        ('c', 'm') => listed(&CLASSES_CM, label),
        ('c', 'n') => listed(&CLASSES_CN, label),
        ('c', 'o') => listed(&CLASSES_CO, label),
        ('c', 'r') => listed(&CLASSES_CR, label),
        ('c', 'u') => listed(&CLASSES_CU, label),
        ('c', 'v') => listed(&CLASSES_CV, label),
        ('c', 'w') | ('f', 'm') | ('k', 'y') | ('m', 't')
        | ('v', 'u') => listed(&CLASSES_CW, label),
        ('c', 'y') => listed(&CLASSES_CY, label),
        ('d', 'o') => listed(&CLASSES_DO, label),
        ('d', 'z') => listed(&CLASSES_DZ, label),
        ('e', 'c') => listed(&CLASSES_EC, label),
        ('e', 'e') => listed(&CLASSES_EE, label),
        ('e', 'g') => listed(&CLASSES_EG, label),
        ('e', 's') => listed(&CLASSES_ES, label),
        ('e', 't') => listed(&CLASSES_ET, label),
        ('f', 'i') => listed(&CLASSES_FI, label),
        ('f', 'j') => listed(&CLASSES_FJ, label),
        ('f', 'r') => listed(&CLASSES_FR, label),
        ('g', 'd') => listed(&CLASSES_GD, label),
        ('g', 'e') => listed(&CLASSES_GE, label),
        ('g', 'g') | ('j', 'e') => listed(&CLASSES_GG, label),
        ('g', 'h') => listed(&CLASSES_GH, label),
        ('g', 'i') => listed(&CLASSES_GI, label),
        ('g', 'l') => listed(&CLASSES_GL, label),
        ('g', 'n') => listed(&CLASSES_GN, label),
        ('g', 'p') => listed(&CLASSES_GP, label),
        ('g', 't') => listed(&CLASSES_GT, label),
        ('g', 'u') => listed(&CLASSES_GU, label),
        ('h', 'k') => listed(&CLASSES_HK, label),
        ('h', 'n') => listed(&CLASSES_HN, label),
        ('h', 'r') => listed(&CLASSES_HR, label),
        ('h', 't') => listed(&CLASSES_HT, label),
        ('h', 'u') => listed(&CLASSES_HU, label),
        ('i', 'd') => listed(&CLASSES_ID, label),
        ('i', 'l') => listed(&CLASSES_IL, label),
        ('i', 'm') => listed(&CLASSES_IM, label),
        ('i', 'n') => listed(&CLASSES_IN, label),
        ('i', 'o') | ('t', 'm') => listed(&CLASSES_IO, label),
        ('i', 'r') => listed(&CLASSES_IR, label),
        ('i', 't') => listed(&CLASSES_IT, label),
        ('j', 'o') => listed(&CLASSES_JO, label),
        ('j', 'p') => listed(&CLASSES_JP, label),
        ('k', 'e') => listed(&CLASSES_KE, label),
        ('k', 'i') | ('n', 'r') => listed(&CLASSES_KI, label),
        ('k', 'm') => listed(&CLASSES_KM, label),
        ('k', 'n') => listed(&CLASSES_KN, label),
        ('k', 'p') => listed(&CLASSES_KP, label),
        ('k', 'r') => listed(&CLASSES_KR, label),
        ('k', 'w') => listed(&CLASSES_KW, label),
        ('l', 'a') => listed(&CLASSES_LA, label),
        ('l', 'k') => listed(&CLASSES_LK, label),
        ('l', 's') => listed(&CLASSES_LS, label),
        ('l', 'v') => listed(&CLASSES_LV, label),
        ('l', 'y') => listed(&CLASSES_LY, label),
        ('m', 'a') => listed(&CLASSES_MA, label),
        ('m', 'c') => listed(&CLASSES_MC, label),
        ('m', 'e') => listed(&CLASSES_ME, label),
        ('m', 'g') => listed(&CLASSES_MG, label),
        ('m', 'k') => listed(&CLASSES_MK, label),
        ('m', 'l') => listed(&CLASSES_ML, label),
        ('m', 'n') => listed(&CLASSES_MN, label),
        ('m', 'u') => listed(&CLASSES_MU, label),
        ('m', 'v') => listed(&CLASSES_MV, label),
        ('m', 'w') => listed(&CLASSES_MW, label),
        ('m', 'x') => listed(&CLASSES_MX, label),
        ('m', 'y') => listed(&CLASSES_MY, label),
        ('m', 'z') => listed(&CLASSES_MZ, label),
        ('n', 'a') => listed(&CLASSES_NA, label),
        ('n', 'c') => listed(&CLASSES_NC, label),
        ('n', 'f') => listed(&CLASSES_NF, label),
        ('n', 'g') => listed(&CLASSES_NG, label),
        ('n', 'i') => listed(&CLASSES_NI, label),
        ('n', 'o') => listed(&CLASSES_NO, label),
        ('n', 'z') => listed(&CLASSES_NZ, label),
        ('o', 'm') => listed(&CLASSES_OM, label),
        ('p', 'a') => listed(&CLASSES_PA, label),
        ('p', 'e') => listed(&CLASSES_PE, label),
        ('p', 'f') => listed(&CLASSES_PF, label),
        ('p', 'h') => listed(&CLASSES_PH, label),
        ('p', 'k') => listed(&CLASSES_PK, label),
        ('p', 'l') => listed(&CLASSES_PL, label),
        ('p', 'n') => listed(&CLASSES_PN, label),
        ('p', 'r') => listed(&CLASSES_PR, label),
        ('p', 's') => listed(&CLASSES_PS, label),
        ('p', 't') => listed(&CLASSES_PT, label),
        ('p', 'w') => listed(&CLASSES_PW, label),
        ('p', 'y') => listed(&CLASSES_PY, label),
        ('q', 'a') => listed(&CLASSES_QA, label),
        ('r', 'e') => listed(&CLASSES_RE, label),
        ('r', 'o') => listed(&CLASSES_RO, label),
        ('r', 's') => listed(&CLASSES_RS, label),
        ('r', 'u') => listed(&CLASSES_RU, label),
        ('r', 'w') => listed(&CLASSES_RW, label),
        ('s', 'a') => listed(&CLASSES_SA, label),
        ('s', 'd') => listed(&CLASSES_SD, label),
        ('s', 'e') => listed(&CLASSES_SE, label),
        ('s', 'g') => listed(&CLASSES_SG, label),
        ('s', 'h') => listed(&CLASSES_SH, label),
        ('s', 'n') => listed(&CLASSES_SN, label),
        ('s', 'o') => listed(&CLASSES_SO, label),
        ('s', 's') => listed(&CLASSES_SS, label),
        ('s', 't') => listed(&CLASSES_ST, label),
        ('s', 'v') => listed(&CLASSES_SV, label),
        ('s', 'z') => listed(&CLASSES_SZ, label),
        ('t', 'h') => listed(&CLASSES_TH, label),
        ('t', 'j') => listed(&CLASSES_TJ, label),
        ('t', 'n') => listed(&CLASSES_TN, label),
        ('t', 'r') => listed(&CLASSES_TR, label),
        ('t', 't') => listed(&CLASSES_TT, label),
        ('t', 'w') => listed(&CLASSES_TW, label),
        ('t', 'z') => listed(&CLASSES_TZ, label),
        ('u', 'a') => listed(&CLASSES_UA, label),
        ('u', 'g') => listed(&CLASSES_UG, label),
        ('u', 'k') => listed(&CLASSES_UK, label),
        ('u', 's') => listed(&CLASSES_US, label),
        ('u', 'y') => listed(&CLASSES_UY, label),
        ('u', 'z') => listed(&CLASSES_UZ, label),
        ('v', 'e') => listed(&CLASSES_VE, label),
        ('v', 'i') => listed(&CLASSES_VI, label),
        ('v', 'n') => listed(&CLASSES_VN, label),
        ('z', 'a') => listed(&CLASSES_ZA, label),
        ('z', 'm') => listed(&CLASSES_ZM, label),
        ('z', 'w') => listed(&CLASSES_ZW, label),
        ('b', 'g') => chars_of(label).len() == 1,
        ('c', 'k') => !same_text(label, "www"),
        ('e', 'r') | ('f', 'k') | ('j', 'm') | ('k', 'h') | ('m', 'm') | ('n', 'p')
        | ('p', 'g') => true,
        _ => false,
    }
}

// ---- classes within classes ----

/// What is run by the states under `edu.au`.
pub const SCHOOLS_AU: [&'static str; 9] = [
    "act", "catholic", "nsw", "nt", "qld", "sa", "tas", "vic", "wa",
];

/// The states that hand out names under `gov.au`.
pub const STATES_AU: [&'static str; 5] = ["qld", "sa", "tas", "vic", "wa"];

/// The states that hand out names under `gov.br`.
pub const STATES_BR: [&'static str; 27] = [
    "ac", "al", "am", "ap", "ba", "ce", "df", "es", "go", "ma", "mg", "ms", "mt", "pa", "pb", "pe",
    "pi", "pr", "rj", "rn", "ro", "rr", "rs", "sc", "se", "sp", "to",
];

/// The cities of Japan whose wards hand out names.
pub const CITIES_JP: [&'static str; 7] = [
    "kawasaki", "kitakyushu", "kobe", "nagoya", "sapporo", "sendai", "yokohama",
];

/// The prefectures of Japan, whose towns hand out names.
pub const PREFECTURES_JP: [&'static str; 47] = [
    "aichi", "akita", "aomori", "chiba", "ehime", "fukui", "fukuoka", "fukushima", "gifu",
    "gunma", "hiroshima", "hokkaido", "hyogo", "ibaraki", "ishikawa", "iwate", "kagawa",
    "kagoshima", "kanagawa", "kochi", "kumamoto", "kyoto", "mie", "miyagi", "miyazaki", "nagano",
    "nagasaki", "nara", "niigata", "oita", "okayama", "okinawa", "osaka", "saga", "saitama",
    "shiga", "shimane", "shizuoka", "tochigi", "tokushima", "tokyo", "tottori", "toyama",
    "wakayama", "yamagata", "yamaguchi", "yamanashi",
];

/// What a prefecture of Japan hands out itself.
pub const OFFICES_JP: [&'static str; 2] = ["metro", "pref"];

/// The counties of Norway that have places of one name with another.
pub const COUNTIES_NO: [&'static str; 9] = [
    "akershus", "buskerud", "hedmark", "hordaland", "more-og-romsdal", "nordland", "ostfold",
    "telemark", "vestfold",
];

/// The places of Norway whose names need that of their county.
pub const PLACES_NO: [&'static str; 6] = ["bo", "heroy", "nes", "os", "sande", "valer"];

/// The counties of Norway that hand out names to primary schools.
pub const SCHOOLS_NO: [&'static str; 21] = [
    "aa", "ah", "bu", "fm", "hl", "hm", "jan-mayen", "mr", "nl", "nt", "of", "ol", "oslo", "rl",
    "sf", "st", "svalbard", "tm", "tr", "va", "vf",
];

/// What hands out names under each state of the `us`.
pub const SCHOOLS_US: [&'static str; 3] = ["cc", "k12", "lib"];

/// A registry of a country hands out names under this label within a class. Whatever stands below a
/// prefecture of Japan, but for its offices, is taken for a town.
pub open spec fn is_inner_class(country: Seq<char>, class: Seq<char>, label: Seq<char>) -> bool {
    match (country[0], country[1]) {
        ('a', 'u') => (class == "edu"@ && lists(SCHOOLS_AU@, label)) || (class == "gov"@ && lists(
            STATES_AU@,
            label,
        )),
        ('b', 'r') => class == "gov"@ && lists(STATES_BR@, label),
        ('j', 'p') => (lists(CITIES_JP@, class) && label != "city"@) || (lists(
            PREFECTURES_JP@,
            class,
        ) && !lists(OFFICES_JP@, label)),
        ('n', 'o') => (lists(COUNTIES_NO@, class) && lists(PLACES_NO@, label)) || (lists(
            SCHOOLS_NO@,
            class,
        ) && label == "gs"@),
        ('u', 'k') => class == "sch"@,
        ('u', 's') => class.len() == 2 && lists(SCHOOLS_US@, label),
        _ => false,
    }
}

/// Tells whether a registry of a country hands out names under this label within a class.
pub fn inner_class(country: &str, class: &str, label: &str) -> (r: bool)
    requires
        country@.len() == 2,
    ensures
        r == is_inner_class(country@, class@, label@),
{
    let c = chars_of(country);
    match (c[0], c[1]) {
        ('a', 'u') => (same_text(class, "edu") && listed(&SCHOOLS_AU, label)) || (same_text(
            class,
            "gov",
        ) && listed(&STATES_AU, label)),
        ('b', 'r') => same_text(class, "gov") && listed(&STATES_BR, label),
        ('j', 'p') => (listed(&CITIES_JP, class) && !same_text(label, "city")) || (listed(
            &PREFECTURES_JP,
            class,
        ) && !listed(&OFFICES_JP, label)),
        ('n', 'o') => (listed(&COUNTIES_NO, class) && listed(&PLACES_NO, label)) || (listed(
            &SCHOOLS_NO,
            class,
        ) && same_text(label, "gs")),
        ('u', 'k') => same_text(class, "sch"),
        ('u', 's') => chars_of(class).len() == 2 && listed(&SCHOOLS_US, label),
        _ => false,
    }
}

} // verus!
