//! The wire encodings are distinct: over a domain of size `n`, the `4 n`
//! wire slots of the first `n` gates encode to `4 n` different field
//! elements. The roots of unity `g^i`, `i < n`, are distinct because `g` has
//! order exactly `n`, and the cosets `H`, `K1 H`, `K2 H`, `K3 H` are
//! disjoint because `1`, `K1`, `K2`, `K3` have distinct `2^32`-th powers.
use crate::domain::{is_pow2, max_domain_size, EvaluationDomain};
use crate::dft::lemma_pow_of_minus_one;
use crate::field::{fmul, fneg, fpow, is_inverse, lemma_fmul_assoc, lemma_fmul_one, modulus};
use crate::permutation::{coset_constant, wire_column, wire_encoding, wire_gate, WireData};
use vstd::arithmetic::div_mod::*;
use vstd::arithmetic::mul::*;
use vstd::arithmetic::power::*;
use vstd::arithmetic::power2::{lemma2_to64, lemma_pow2};
use vstd::prelude::*;

verus! {

/// `x` squared `k` times, reduced modulo `p` at every step.
pub open spec fn square_times(x: nat, k: nat) -> nat
    decreases k,
{
    if k == 0 {
        x % modulus()
    } else {
        let y = square_times(x, (k - 1) as nat);
        (y * y) % modulus()
    }
}

/// Squaring `k` times raises to the power `2^k`.
proof fn lemma_square_times(x: nat, k: nat)
    ensures
        square_times(x, k) as int == pow(x as int, pow(2, k) as nat) % (modulus() as int),
        pow(2, k) > 0,
    decreases k,
{
    let p = modulus() as int;
    lemma_pow_positive(2, k);
    if k == 0 {
        lemma_pow0(2);
        lemma_pow1(x as int);
    } else {
        let j = (k - 1) as nat;
        lemma_square_times(x, j);
        let e = pow(2, j) as nat;
        lemma_pow_adds(2, j, 1);
        lemma_pow1(2);
        assert(pow(2, k) == e + e);
        lemma_pow_adds(x as int, e, e);
        let y = pow(x as int, e);
        lemma_mul_mod_noop_left(y, y, p);
        lemma_mul_mod_noop_right(y % p, y, p);
    }
}

/// A power of two divides every larger power of two.
proof fn lemma_pow2_divides(a: nat, b: nat)
    requires
        is_pow2(a),
        is_pow2(b),
        a <= b,
    ensures
        b % a == 0,
    decreases a,
{
    if a > 1 {
        assert(b > 1);
        lemma_pow2_divides(a / 2, b / 2);
        lemma_fundamental_div_mod((b / 2) as int, (a / 2) as int);
        let q = (b / 2) / (a / 2);
        assert(b == 2 * (b / 2));
        assert(a == 2 * (a / 2));
        assert(b as int == a * q) by (nonlinear_arith)
            requires
                b == 2 * (b / 2),
                a == 2 * (a / 2),
                (b / 2) as int == (a / 2) * q,
        ;
        lemma_mod_multiples_basic(q as int, a as int);
        lemma_mul_is_commutative(a as int, q as int);
    }
}

/// If `x^h` is minus one for a power of two `h`, then `x` has order exactly
/// `2 h`: no power `x^m` with `0 < m < 2 h` is one.
proof fn lemma_exact_order(x: int, h: nat, m: nat)
    requires
        is_pow2(h),
        pow(x, h) % (modulus() as int) == modulus() - 1,
        0 < m < 2 * h,
    ensures
        pow(x, m) % (modulus() as int) != 1,
    decreases h,
{
    let p = modulus() as int;
    if m % 2 == 1 {
        // x^(m h) = (x^m)^h = 1, and also (x^h)^m = (-1)^m = -1.
        lemma_pow_multiplies(x, m, h);
        lemma_pow_multiplies(x, h, m);
        assert(m * h == h * m) by (nonlinear_arith);
        lemma_pow_of_minus_one(pow(x, h), m);
        if pow(x, m) % p == 1 {
            lemma_pow_mod_noop(pow(x, m), h, p);
            lemma1_pow(h);
            lemma_small_mod(1, p as nat);
        }
    } else {
        // Even m: x^2 has order h.
        assert(h > 1);
        let y = pow(x, 2);
        lemma_pow_multiplies(x, 2, h / 2);
        lemma_pow_multiplies(x, 2, m / 2);
        assert(2 * (h / 2) == h);
        assert(2 * (m / 2) == m);
        lemma_exact_order(y, h / 2, m / 2);
    }
}

/// The inverses of the coset constants.
proof fn lemma_coset_constants_invertible()
    ensures
        is_inverse(7, 14981678621464625851270783002338847382197300714436467949315331057125308909861nat),
        is_inverse(13, 44368817455876007328763472737695817247276621346600308926818480438409568694588nat),
        is_inverse(17, 12337852982382633053987703648984933138280130000124150075906743223514960278709nat),
{
    assert(is_inverse(7, 14981678621464625851270783002338847382197300714436467949315331057125308909861nat));
    assert(is_inverse(13, 44368817455876007328763472737695817247276621346600308926818480438409568694588nat));
    assert(is_inverse(17, 12337852982382633053987703648984933138280130000124150075906743223514960278709nat));
}

/// `K = 7` squared 32 times.
proof fn lemma_square_times_7()
    ensures
        square_times(7, 32) == 3793952369011177517951424454785176000433849974408744014172535497121832470999nat,
{
    assert(square_times(7, 0) == 7nat);
    lemma_square_step(7, 0, 7nat, 49nat);
    lemma_square_step(7, 1, 49nat, 2401nat);
    lemma_square_step(7, 2, 2401nat, 5764801nat);
    lemma_square_step(7, 3, 5764801nat, 33232930569601nat);
    lemma_square_step(7, 4, 33232930569601nat, 1104427674243920646305299201nat);
    lemma_square_step(7, 5, 1104427674243920646305299201nat, 1219760487635835700138573862562971820755615294131238401nat);
    lemma_square_step(7, 6, 1219760487635835700138573862562971820755615294131238401nat, 28675123552705270628424486287815997569068313446782523439320916514766803859301nat);
    lemma_square_step(7, 7, 28675123552705270628424486287815997569068313446782523439320916514766803859301nat, 2105266710438460510335584620735748957031592497628193760933367748953176313453nat);
    lemma_square_step(7, 8, 2105266710438460510335584620735748957031592497628193760933367748953176313453nat, 34881747306914900137344591563600029366000477729476687627918756449612985712857nat);
    lemma_square_step(7, 9, 34881747306914900137344591563600029366000477729476687627918756449612985712857nat, 31436051378302673029273472463863915906926382763710106172270466860223546799877nat);
    lemma_square_step(7, 10, 31436051378302673029273472463863915906926382763710106172270466860223546799877nat, 4248848083197493813776090311667560507828636340278881372282335383511678723284nat);
    lemma_square_step(7, 11, 4248848083197493813776090311667560507828636340278881372282335383511678723284nat, 37189883987935609358827315048978935232303196793349982437796642863156983607667nat);
    lemma_square_step(7, 12, 37189883987935609358827315048978935232303196793349982437796642863156983607667nat, 33634957497581058462876496544492689517698192528710430647586205774018225807069nat);
    lemma_square_step(7, 13, 33634957497581058462876496544492689517698192528710430647586205774018225807069nat, 19284738547097072801643196689857553390527674565967087920453798189703846016574nat);
    lemma_square_step(7, 14, 19284738547097072801643196689857553390527674565967087920453798189703846016574nat, 47049055021872071257775922023398808741640158329845627147598436951931663916078nat);
    lemma_square_step(7, 15, 47049055021872071257775922023398808741640158329845627147598436951931663916078nat, 6718187652060118154878991745143222538323646667128198963877451859431710724943nat);
    lemma_square_step(7, 16, 6718187652060118154878991745143222538323646667128198963877451859431710724943nat, 22089156137241826677078646197881379037144385839891156183020495786757805517677nat);
    lemma_square_step(7, 17, 22089156137241826677078646197881379037144385839891156183020495786757805517677nat, 28363060994872825639943768122805767684920777072881571656655784403359326665178nat);
    lemma_square_step(7, 18, 28363060994872825639943768122805767684920777072881571656655784403359326665178nat, 5503028070484348714942096738416053314985046483370456136319100994603649984338nat);
    lemma_square_step(7, 19, 5503028070484348714942096738416053314985046483370456136319100994603649984338nat, 44580653893003952626002625081325463622826960835280297872176106820627572892892nat);
    lemma_square_step(7, 20, 44580653893003952626002625081325463622826960835280297872176106820627572892892nat, 11855155637572493763249153043615528589804302674914486698268742272542556290579nat);
    lemma_square_step(7, 21, 11855155637572493763249153043615528589804302674914486698268742272542556290579nat, 51582941294894592575687238970218624324454705418455652813690416499960328389521nat);
    lemma_square_step(7, 22, 51582941294894592575687238970218624324454705418455652813690416499960328389521nat, 39894222336603212565226889532583267851974052842094346059943016651726437307443nat);
    lemma_square_step(7, 23, 39894222336603212565226889532583267851974052842094346059943016651726437307443nat, 30111311273997722384870578106382841012128977324593344500133647453364179653526nat);
    lemma_square_step(7, 24, 30111311273997722384870578106382841012128977324593344500133647453364179653526nat, 51837217513153124197662294415014285506887144567837836564361845314150247032023nat);
    lemma_square_step(7, 25, 51837217513153124197662294415014285506887144567837836564361845314150247032023nat, 19847285074254561841597764316897343331645835547381627985238813845568422026200nat);
    lemma_square_step(7, 26, 19847285074254561841597764316897343331645835547381627985238813845568422026200nat, 19266941795265119528980094586930279494399117446700983472308632786470842364243nat);
    lemma_square_step(7, 27, 19266941795265119528980094586930279494399117446700983472308632786470842364243nat, 47322165478023450553764335389857279145827982362106833992504959209011915288318nat);
    lemma_square_step(7, 28, 47322165478023450553764335389857279145827982362106833992504959209011915288318nat, 45298623529600677370686846268888213192107402400222516670752111723117005884742nat);
    lemma_square_step(7, 29, 45298623529600677370686846268888213192107402400222516670752111723117005884742nat, 17734919456181544182922340728807960274892878428995710465828814863351633434222nat);
    lemma_square_step(7, 30, 17734919456181544182922340728807960274892878428995710465828814863351633434222nat, 32057921650975625354726385963153119689993979282682231668508191228140784177368nat);
    lemma_square_step(7, 31, 32057921650975625354726385963153119689993979282682231668508191228140784177368nat, 3793952369011177517951424454785176000433849974408744014172535497121832470999nat);
}

/// `K = 13` squared 32 times.
proof fn lemma_square_times_13()
    ensures
        square_times(13, 32) == 4046138626011825542084992597555165723360380839164589500457610984020231187171nat,
{
    assert(square_times(13, 0) == 13nat);
    lemma_square_step(13, 0, 13nat, 169nat);
    lemma_square_step(13, 1, 169nat, 28561nat);
    lemma_square_step(13, 2, 28561nat, 815730721nat);
    lemma_square_step(13, 3, 815730721nat, 665416609183179841nat);
    lemma_square_step(13, 4, 665416609183179841nat, 442779263776840698304313192148785281nat);
    lemma_square_step(13, 5, 442779263776840698304313192148785281nat, 196053476430761073330659760423566015424403280004115787589590963842248961nat);
    lemma_square_step(13, 6, 196053476430761073330659760423566015424403280004115787589590963842248961nat, 30980189500832265833701064392317025545913837680822954426095046771107809786468nat);
    lemma_square_step(13, 7, 30980189500832265833701064392317025545913837680822954426095046771107809786468nat, 51079955515565763521280772809090048849220611496066484838563981864312002283107nat);
    lemma_square_step(13, 8, 51079955515565763521280772809090048849220611496066484838563981864312002283107nat, 41970229167950548952017119004376067044390579076098182755491521313896169061882nat);
    lemma_square_step(13, 9, 41970229167950548952017119004376067044390579076098182755491521313896169061882nat, 26203433337326064232325512640113020021707038189985724213492607801025306121875nat);
    lemma_square_step(13, 10, 26203433337326064232325512640113020021707038189985724213492607801025306121875nat, 11662043272347965341178274211578559198899663386639771625598571104721191839779nat);
    lemma_square_step(13, 11, 11662043272347965341178274211578559198899663386639771625598571104721191839779nat, 18893887691825916436762558832379830749773050736304542903793495617289506643954nat);
    lemma_square_step(13, 12, 18893887691825916436762558832379830749773050736304542903793495617289506643954nat, 8000131428842056628870391821808904284626237410924687688500332826771783937347nat);
    lemma_square_step(13, 13, 8000131428842056628870391821808904284626237410924687688500332826771783937347nat, 39753476478034656155884135946269975635251085057758812752509423482721628798856nat);
    lemma_square_step(13, 14, 39753476478034656155884135946269975635251085057758812752509423482721628798856nat, 41316639112756887512171147006525730745164648265761619945875382955381316171999nat);
    lemma_square_step(13, 15, 41316639112756887512171147006525730745164648265761619945875382955381316171999nat, 8975646174317885348990390408580132424944652877551817050943492053155435466693nat);
    lemma_square_step(13, 16, 8975646174317885348990390408580132424944652877551817050943492053155435466693nat, 19623514726039798717959560732457068745714407635584181837286136367351551618594nat);
    lemma_square_step(13, 17, 19623514726039798717959560732457068745714407635584181837286136367351551618594nat, 32063288557879908948977857007654126036473238714074580317820380698597362343635nat);
    lemma_square_step(13, 18, 32063288557879908948977857007654126036473238714074580317820380698597362343635nat, 48470200342937201173524618185296256063110619401424844115838289611735353197072nat);
    lemma_square_step(13, 19, 48470200342937201173524618185296256063110619401424844115838289611735353197072nat, 17414147618572591349059697913830808953008825462794899999889076297858301488353nat);
    lemma_square_step(13, 20, 17414147618572591349059697913830808953008825462794899999889076297858301488353nat, 32687578834077755356074508608439727537877724613570780936273103386922604424006nat);
    lemma_square_step(13, 21, 32687578834077755356074508608439727537877724613570780936273103386922604424006nat, 31603721740755899500742869379139458084353256394332764424872295161951142714377nat);
    lemma_square_step(13, 22, 31603721740755899500742869379139458084353256394332764424872295161951142714377nat, 43197873895261891192000758292834804650507681536434070055408989855855559404756nat);
    lemma_square_step(13, 23, 43197873895261891192000758292834804650507681536434070055408989855855559404756nat, 18416959506869009357118169951730634343453411897305161031302248303088837892851nat);
    lemma_square_step(13, 24, 18416959506869009357118169951730634343453411897305161031302248303088837892851nat, 34844782519761099924435323791219579410919608679860315199969154104288770321238nat);
    lemma_square_step(13, 25, 34844782519761099924435323791219579410919608679860315199969154104288770321238nat, 22601927120808839256360637418268378359161732902076529723748199553078210607470nat);
    lemma_square_step(13, 26, 22601927120808839256360637418268378359161732902076529723748199553078210607470nat, 26100110814278430994880134483671660668304978807618770222944153671407504141494nat);
    lemma_square_step(13, 27, 26100110814278430994880134483671660668304978807618770222944153671407504141494nat, 33281383111519896412547405065780839028877229270673213469095670239979010774289nat);
    lemma_square_step(13, 28, 33281383111519896412547405065780839028877229270673213469095670239979010774289nat, 51374370848501017262379001430348809695958890525028851514797823204464780854660nat);
    lemma_square_step(13, 29, 51374370848501017262379001430348809695958890525028851514797823204464780854660nat, 33292290224279831233299358516961196531118278510995299853177717843792819533857nat);
    lemma_square_step(13, 30, 33292290224279831233299358516961196531118278510995299853177717843792819533857nat, 26880967510763306860915693902001585053287429911427890969921598387846779921400nat);
    lemma_square_step(13, 31, 26880967510763306860915693902001585053287429911427890969921598387846779921400nat, 4046138626011825542084992597555165723360380839164589500457610984020231187171nat);
}

/// `K = 17` squared 32 times.
proof fn lemma_square_times_17()
    ensures
        square_times(17, 32) == 21603971737794036106955559677248717275468129906273884800919746115563739852207nat,
{
    assert(square_times(17, 0) == 17nat);
    lemma_square_step(17, 0, 17nat, 289nat);
    lemma_square_step(17, 1, 289nat, 83521nat);
    lemma_square_step(17, 2, 83521nat, 6975757441nat);
    lemma_square_step(17, 3, 6975757441nat, 48661191875666868481nat);
    lemma_square_step(17, 4, 48661191875666868481nat, 2367911594760467245844106297320951247361nat);
    lemma_square_step(17, 5, 2367911594760467245844106297320951247361nat, 48802552037683062339865174123391223208693834708822918651871345423092203905943nat);
    lemma_square_step(17, 6, 48802552037683062339865174123391223208693834708822918651871345423092203905943nat, 15601001647973497628592578870839938373616445991321633355070838275616992347053nat);
    lemma_square_step(17, 7, 15601001647973497628592578870839938373616445991321633355070838275616992347053nat, 8862771741065558268673704001756317387108683765465206115658337704748246529666nat);
    lemma_square_step(17, 8, 8862771741065558268673704001756317387108683765465206115658337704748246529666nat, 24352946754343349141295990272128774701898210377950088556879137896279840792951nat);
    lemma_square_step(17, 9, 24352946754343349141295990272128774701898210377950088556879137896279840792951nat, 40316789300437798962035879649901351900179811858278761568717588361314899100008nat);
    lemma_square_step(17, 10, 40316789300437798962035879649901351900179811858278761568717588361314899100008nat, 49153892781287522954325481755316053013077330141666963679652162428871794246045nat);
    lemma_square_step(17, 11, 49153892781287522954325481755316053013077330141666963679652162428871794246045nat, 12755461610886292456757045243416956062191125587933094814027645509924345634456nat);
    lemma_square_step(17, 12, 12755461610886292456757045243416956062191125587933094814027645509924345634456nat, 18843258848723758710035559870025064403532240982708200373205165746482668586926nat);
    lemma_square_step(17, 13, 18843258848723758710035559870025064403532240982708200373205165746482668586926nat, 49553012676478203466975517783282566832453500101652545749160435905465580960174nat);
    lemma_square_step(17, 14, 49553012676478203466975517783282566832453500101652545749160435905465580960174nat, 3820612714425399112681296688229767937680376324619577742784052276696464784875nat);
    lemma_square_step(17, 15, 3820612714425399112681296688229767937680376324619577742784052276696464784875nat, 49788950192886185099241717605048085543966325502719405818332224908478967843839nat);
    lemma_square_step(17, 16, 49788950192886185099241717605048085543966325502719405818332224908478967843839nat, 48811757158412693837290161582131053116683237240329038278498224055094536124593nat);
    lemma_square_step(17, 17, 48811757158412693837290161582131053116683237240329038278498224055094536124593nat, 28315316370592695546967482430200122146877588032204383212454907611725474926916nat);
    lemma_square_step(17, 18, 28315316370592695546967482430200122146877588032204383212454907611725474926916nat, 14677181989580794159081408476116542845895765966672025284840558366221575874434nat);
    lemma_square_step(17, 19, 14677181989580794159081408476116542845895765966672025284840558366221575874434nat, 13995012731598625983640954049824649709125313287732425013055619180382012394803nat);
    lemma_square_step(17, 20, 13995012731598625983640954049824649709125313287732425013055619180382012394803nat, 32184257039693075954005863844500044319665447841588222487837672975088046699454nat);
    lemma_square_step(17, 21, 32184257039693075954005863844500044319665447841588222487837672975088046699454nat, 4133621091330124323521861614183130158131787063767354912053139999311438958887nat);
    lemma_square_step(17, 22, 4133621091330124323521861614183130158131787063767354912053139999311438958887nat, 25192831955275812016769734178340808761735682254106589504175399210424611601777nat);
    lemma_square_step(17, 23, 25192831955275812016769734178340808761735682254106589504175399210424611601777nat, 36818713148517563714216126166202016252251520069154920106593755009139597848093nat);
    lemma_square_step(17, 24, 36818713148517563714216126166202016252251520069154920106593755009139597848093nat, 6381555087888155490621990553658082995516147388248908128815111879118886681701nat);
    lemma_square_step(17, 25, 6381555087888155490621990553658082995516147388248908128815111879118886681701nat, 16962799237217225937316262866879274047250357329541500514778345612818598283351nat);
    lemma_square_step(17, 26, 16962799237217225937316262866879274047250357329541500514778345612818598283351nat, 36376934588256187595960834891923901333869858555669644271179086888678364545152nat);
    lemma_square_step(17, 27, 36376934588256187595960834891923901333869858555669644271179086888678364545152nat, 12617950287347940742596287344957543007222122089653938230738809448902016892355nat);
    lemma_square_step(17, 28, 12617950287347940742596287344957543007222122089653938230738809448902016892355nat, 11108978516729727011981220572791835086900201907392118137940566945010213222551nat);
    lemma_square_step(17, 29, 11108978516729727011981220572791835086900201907392118137940566945010213222551nat, 43275533216285427093054159532619850696276335128854425700540627630099276234417nat);
    lemma_square_step(17, 30, 43275533216285427093054159532619850696276335128854425700540627630099276234417nat, 5292847801716467010226403779684553191244608540238347562623826107876978345778nat);
    lemma_square_step(17, 31, 5292847801716467010226403779684553191244608540238347562623826107876978345778nat, 21603971737794036106955559677248717275468129906273884800919746115563739852207nat);
}

/// One more squaring step from a known value.
proof fn lemma_square_step(x: nat, k: nat, v: nat, w: nat)
    requires
        square_times(x, k) == v,
        (v * v) % modulus() == w,
    ensures
        square_times(x, k + 1) == w,
{
}

/// One squared 32 times is one.
proof fn lemma_square_times_one()
    ensures
        square_times(1, 32) == 1,
{
    assert(square_times(1, 0) == 1nat);
    lemma_square_step(1, 0, 1nat, 1nat);
    lemma_square_step(1, 1, 1nat, 1nat);
    lemma_square_step(1, 2, 1nat, 1nat);
    lemma_square_step(1, 3, 1nat, 1nat);
    lemma_square_step(1, 4, 1nat, 1nat);
    lemma_square_step(1, 5, 1nat, 1nat);
    lemma_square_step(1, 6, 1nat, 1nat);
    lemma_square_step(1, 7, 1nat, 1nat);
    lemma_square_step(1, 8, 1nat, 1nat);
    lemma_square_step(1, 9, 1nat, 1nat);
    lemma_square_step(1, 10, 1nat, 1nat);
    lemma_square_step(1, 11, 1nat, 1nat);
    lemma_square_step(1, 12, 1nat, 1nat);
    lemma_square_step(1, 13, 1nat, 1nat);
    lemma_square_step(1, 14, 1nat, 1nat);
    lemma_square_step(1, 15, 1nat, 1nat);
    lemma_square_step(1, 16, 1nat, 1nat);
    lemma_square_step(1, 17, 1nat, 1nat);
    lemma_square_step(1, 18, 1nat, 1nat);
    lemma_square_step(1, 19, 1nat, 1nat);
    lemma_square_step(1, 20, 1nat, 1nat);
    lemma_square_step(1, 21, 1nat, 1nat);
    lemma_square_step(1, 22, 1nat, 1nat);
    lemma_square_step(1, 23, 1nat, 1nat);
    lemma_square_step(1, 24, 1nat, 1nat);
    lemma_square_step(1, 25, 1nat, 1nat);
    lemma_square_step(1, 26, 1nat, 1nat);
    lemma_square_step(1, 27, 1nat, 1nat);
    lemma_square_step(1, 28, 1nat, 1nat);
    lemma_square_step(1, 29, 1nat, 1nat);
    lemma_square_step(1, 30, 1nat, 1nat);
    lemma_square_step(1, 31, 1nat, 1nat);
}

/// `1`, `K1`, `K2`, `K3` have distinct `2^32`-th powers.
proof fn lemma_coset_powers_distinct(a: int, b: int)
    requires
        0 <= a < 4,
        0 <= b < 4,
        a != b,
    ensures
        square_times(coset_constant(a), 32) != square_times(coset_constant(b), 32),
{
    lemma_square_times_one();
    lemma_square_times_7();
    lemma_square_times_13();
    lemma_square_times_17();
}

/// The encoding of a wire slot is its coset constant times `g^i`.
proof fn lemma_encoding_shape(w: WireData, g: nat)
    ensures
        wire_encoding(w, g) == fmul(coset_constant(wire_column(w)), fpow(g, wire_gate(w))),
        wire_encoding(w, g) < modulus(),
{
    if wire_column(w) == 0 {
        let x = fpow(g, wire_gate(w));
        lemma_fmul_one(x);
    }
}

/// The domain size divides `2^32`.
proof fn lemma_size_divides(d: EvaluationDomain)
    requires
        d.wf(),
    ensures
        pow(2, 32) == max_domain_size(),
        max_domain_size() % d.spec_size() == 0,
{
    lemma2_to64();
    lemma_pow2(32);
    assert(is_pow2(1));
    assert(is_pow2(2));
    assert(is_pow2(4));
    assert(is_pow2(8));
    assert(is_pow2(16));
    assert(is_pow2(32));
    assert(is_pow2(64));
    assert(is_pow2(128));
    assert(is_pow2(256));
    assert(is_pow2(512));
    assert(is_pow2(1024));
    assert(is_pow2(2048));
    assert(is_pow2(4096));
    assert(is_pow2(8192));
    assert(is_pow2(16384));
    assert(is_pow2(32768));
    assert(is_pow2(65536));
    assert(is_pow2(131072));
    assert(is_pow2(262144));
    assert(is_pow2(524288));
    assert(is_pow2(1048576));
    assert(is_pow2(2097152));
    assert(is_pow2(4194304));
    assert(is_pow2(8388608));
    assert(is_pow2(16777216));
    assert(is_pow2(33554432));
    assert(is_pow2(67108864));
    assert(is_pow2(134217728));
    assert(is_pow2(268435456));
    assert(is_pow2(536870912));
    assert(is_pow2(1073741824));
    assert(is_pow2(2147483648));
    assert(is_pow2(4294967296));
    lemma_pow2_divides(d.spec_size(), max_domain_size());
}

/// A root of unity of the domain raised to a multiple of the size is one.
proof fn lemma_root_power_vanishes(d: EvaluationDomain, i: nat, m: nat)
    requires
        d.wf(),
        m % d.spec_size() == 0,
    ensures
        pow(pow(d.gen() as int, i), m) % (modulus() as int) == 1,
{
    let p = modulus() as int;
    let n = d.spec_size();
    let g = d.gen() as int;
    let q = m / n;
    lemma_fundamental_div_mod(m as int, n as int);
    assert(m == n * q);
    lemma_pow_multiplies(g, i, m);
    assert(i * m == n * (i * q)) by (nonlinear_arith)
        requires
            m == n * q,
    ;
    assert(i * q >= 0) by (nonlinear_arith)
        requires
            q >= 0,
    ;
    lemma_pow_multiplies(g, n, (i * q) as nat);
    lemma_pow_mod_noop(pow(g, n), (i * q) as nat, p);
    assert(pow(g, n) % p == 1);
    lemma1_pow((i * q) as nat);
    lemma_small_mod(1, p as nat);
}

/// Raised to the `2^32`-th power, an encoding over the domain forgets its
/// root of unity: `(K g^i)^(2^32) = K^(2^32)`.
proof fn lemma_encoding_power(d: EvaluationDomain, w: WireData)
    requires
        d.wf(),
    ensures
        pow(wire_encoding(w, d.gen()) as int, pow(2, 32) as nat) % (modulus() as int) == square_times(
            coset_constant(wire_column(w)),
            32,
        ) as int,
{
    let p = modulus() as int;
    let k = coset_constant(wire_column(w)) as int;
    let i = wire_gate(w);
    lemma_size_divides(d);
    let big_n = max_domain_size();
    lemma_square_times(coset_constant(wire_column(w)), 32);
    lemma_encoding_shape(w, d.gen());
    let gi = pow(d.gen() as int, i);
    lemma_root_power_vanishes(d, i, big_n);
    // (K (g^i mod p) mod p)^N = (K g^i)^N = K^N (g^i)^N = K^N, modulo p.
    lemma_mul_mod_noop_right(k, gi, p);
    lemma_pow_mod_noop(k * gi, big_n, p);
    lemma_pow_distributes(k, gi, big_n);
    lemma_mul_mod_noop_right(pow(k, big_n), pow(gi, big_n), p);
}

/// Distinct roots of unity: `g^i` and `g^j` differ for `i < j < n`.
proof fn lemma_roots_distinct(d: EvaluationDomain, i: nat, j: nat)
    requires
        d.wf(),
        i < j < d.spec_size(),
    ensures
        fpow(d.gen(), i) != fpow(d.gen(), j),
{
    let p = modulus() as int;
    let n = d.spec_size();
    let g = d.gen() as int;
    let m = (j - i) as nat;
    let r = (n - i) as nat;
    // g^(n - i) g^j = g^n g^m = g^m and g^(n - i) g^i = g^n = 1.
    lemma_pow_adds(g, i, m);
    lemma_pow_adds(g, r, i);
    lemma_pow_adds(g, n, m);
    assert(r + j == n + m);
    lemma_pow_adds(g, r, j);
    if fpow(d.gen(), i) == fpow(d.gen(), j) {
        lemma_mul_mod_noop_right(pow(g, r), pow(g, i), p);
        lemma_mul_mod_noop_right(pow(g, r), pow(g, j), p);
        assert(pow(g, n + m) % p == pow(g, n) % p);
        lemma_mul_mod_noop_left(pow(g, n), pow(g, m), p);
        assert(pow(g, n) % p == 1);
        lemma_mul_mod_noop_left(1, pow(g, m), p);
        assert(pow(g, m) % p == 1);
        // But g has order exactly n.
        assert(n >= 2);
        assert(is_pow2(n / 2)) by {
            reveal_with_fuel(is_pow2, 2);
        }
        assert(fpow(d.gen(), n / 2) == fneg(1));
        assert(2 * (n / 2) == n) by {
            reveal_with_fuel(is_pow2, 2);
        }
        lemma_exact_order(g, n / 2, m);
    }
}

/// Distinct wire slots of the first `n` gates have distinct encodings over
/// a domain of size `n`: the roots of unity are distinct and the cosets
/// `H`, `K1 H`, `K2 H`, `K3 H` are disjoint, so the sigma encodings name
/// every wire slot uniquely.
pub proof fn lemma_wire_encodings_distinct(d: EvaluationDomain, a: WireData, b: WireData)
    requires
        d.wf(),
        wire_gate(a) < d.spec_size(),
        wire_gate(b) < d.spec_size(),
        a != b,
    ensures
        wire_encoding(a, d.gen()) != wire_encoding(b, d.gen()),
{
    let g = d.gen();
    if wire_encoding(a, g) == wire_encoding(b, g) {
        lemma_encoding_power(d, a);
        lemma_encoding_power(d, b);
        if wire_column(a) != wire_column(b) {
            lemma_coset_powers_distinct(wire_column(a), wire_column(b));
        } else {
            // Same coset: cancel the coset constant.
            lemma_encoding_shape(a, g);
            lemma_encoding_shape(b, g);
            let k = coset_constant(wire_column(a));
            let xa = fpow(g, wire_gate(a));
            let xb = fpow(g, wire_gate(b));
            lemma_coset_constants_invertible();
            let kinv = if k == 1 {
                1nat
            } else if k == 7 {
                14981678621464625851270783002338847382197300714436467949315331057125308909861nat
            } else if k == 13 {
                44368817455876007328763472737695817247276621346600308926818480438409568694588nat
            } else {
                12337852982382633053987703648984933138280130000124150075906743223514960278709nat
            };
            assert(fmul(kinv, k) == 1) by {
                crate::field::lemma_fmul_comm(kinv, k);
            }
            lemma_fmul_assoc(kinv, k, xa);
            lemma_fmul_assoc(kinv, k, xb);
            lemma_fmul_one(xa);
            lemma_fmul_one(xb);
            assert(xa == xb);
            assert(wire_gate(a) != wire_gate(b));
            if wire_gate(a) < wire_gate(b) {
                lemma_roots_distinct(d, wire_gate(a), wire_gate(b));
            } else {
                lemma_roots_distinct(d, wire_gate(b), wire_gate(a));
            }
        }
    }
}

} // verus!
