//! Built-in dictionaries, one per conversion direction, in the dictionary
//! text format (`key:value` per line). They hold a core set of character and
//! phrase mappings; a fuller dictionary can be supplied as text through
//! `STConverter::with_dictionary`.

use vstd::prelude::*;
use crate::config::ConvertType;
use crate::model::DictModel;
use crate::parse::dict_from_text;

verus! {

/// Traditional Chinese to Simplified Chinese.
pub const T2S_TEXT: &'static str = "# Traditional -> Simplified
計:计
機:机
學:学
與:与
術:术
國:国
標:标
憂:忧
鬱:郁
傳:传
統:统
簡:简
體:体
東:东
車:车
馬:马
鳥:鸟
魚:鱼
門:门
語:语
說:说
話:话
書:书
長:长
開:开
關:关
時:时
間:间
電:电
腦:脑
們:们
個:个
來:来
這:这
會:会
對:对
發:发
經:经
過:过
還:还
進:进
現:现
實:实
點:点
見:见
氣:气
華:华
灣:湾
烏:乌
龜:龟
陽:阳
遠:远
風:风
愛:爱
聽:听
買:买
賣:卖
讀:读
寫:写
變:变
飛:飞
應:应
從:从
樂:乐
歡:欢
層:层
軟:软
網:网
絡:络
憶:忆
記:记
陸:陆
萬:万
興:兴
頭:头
號:号
場:场
業:业
親:亲
衛:卫
級:级
區:区
報:报
廣:广
圖:图
處:处
線:线
題:题
驗:验
錯:错
難:难
雙:双
總:总
無:无
產:产
義:义
淨:净
髮:发
麵:面
鼠標:鼠标
乾淨:干净
瞭解:了解
";

/// Simplified Chinese to Traditional Chinese.
pub const S2T_TEXT: &'static str = "# Simplified -> Traditional
计:計
机:機
学:學
与:與
术:術
国:國
标:標
忧:憂
传:傳
统:統
简:簡
体:體
东:東
车:車
马:馬
鸟:鳥
鱼:魚
门:門
语:語
说:說
话:話
书:書
长:長
开:開
关:關
时:時
间:間
电:電
脑:腦
们:們
个:個
来:來
这:這
会:會
对:對
经:經
过:過
还:還
进:進
现:現
实:實
点:點
见:見
气:氣
华:華
湾:灣
乌:烏
龟:龜
阳:陽
远:遠
风:風
爱:愛
听:聽
买:買
卖:賣
读:讀
写:寫
变:變
飞:飛
应:應
从:從
乐:樂
欢:歡
层:層
软:軟
网:網
络:絡
忆:憶
记:記
陆:陸
万:萬
兴:興
头:頭
号:號
场:場
业:業
亲:親
卫:衛
级:級
区:區
报:報
广:廣
图:圖
处:處
线:線
题:題
验:驗
错:錯
难:難
双:雙
总:總
无:無
产:產
义:義
净:淨
面:麵
方便面:方便麪
面条:麵條
头发:頭髮
发展:發展
出发:出發
干净:乾淨
忧郁:憂鬱
";

/// Taiwan usage to Mainland usage (Simplified script).
pub const TW2CN_TEXT: &'static str = "# Taiwan -> Mainland
记忆体:内存
软体:软件
网路:网络
资料库:数据库
程式:程序
滑鼠:鼠标
印表机:打印机
硬碟:硬盘
伺服器:服务器
萤幕:屏幕
";

/// Mainland usage to Taiwan usage (Simplified script).
pub const CN2TW_TEXT: &'static str = "# Mainland -> Taiwan
内存:记忆体
软件:软体
网络:网路
数据库:资料库
程序:程式
鼠标:滑鼠
打印机:印表机
硬盘:硬碟
服务器:伺服器
屏幕:萤幕
";

/// Traditional Chinese to Hong Kong variants.
pub const T2HK_TEXT: &'static str = "# Traditional -> Hong Kong
衛:衞
為:爲
峰:峯
裡:裏
線:綫
眾:衆
啟:啓
麵:麪
";

/// Hong Kong variants to Traditional Chinese.
pub const HK2T_TEXT: &'static str = "# Hong Kong -> Traditional
衞:衛
爲:為
峯:峰
裏:裡
綫:線
衆:眾
啓:啟
麪:麵
";

/// Japanese Kanji (shinjitai) to Traditional Chinese.
pub const JP_TEXT: &'static str = "# Japanese Kanji -> Traditional
両:兩
国:國
学:學
気:氣
広:廣
図:圖
売:賣
駅:驛
鉄:鐵
桜:櫻
竜:龍
楽:樂
観:觀
読:讀
沢:澤
戦:戰
発:發
県:縣
塩:鹽
";

/// The built-in dictionary text of a direction.
pub open spec fn dictionary_text(ct: ConvertType) -> Seq<char> {
    match ct {
        ConvertType::T2S => T2S_TEXT@,
        ConvertType::S2T => S2T_TEXT@,
        ConvertType::TW2CN => TW2CN_TEXT@,
        ConvertType::CN2TW => CN2TW_TEXT@,
        ConvertType::T2HK => T2HK_TEXT@,
        ConvertType::HK2T => HK2T_TEXT@,
        ConvertType::JP2T => JP_TEXT@,
    }
}

/// The built-in dictionary of a direction.
pub open spec fn dictionary_for(ct: ConvertType) -> DictModel {
    dict_from_text(dictionary_text(ct))
}

/// Each direction's built-in dictionary holds every mapping line of that
/// direction's dictionary text.
pub proof fn lemma_builtin_dictionaries()
    ensures
        dictionary_for(ConvertType::T2S) == dict_from_text(T2S_TEXT@),
        dictionary_for(ConvertType::S2T) == dict_from_text(S2T_TEXT@),
        dictionary_for(ConvertType::TW2CN) == dict_from_text(TW2CN_TEXT@),
        dictionary_for(ConvertType::CN2TW) == dict_from_text(CN2TW_TEXT@),
        dictionary_for(ConvertType::T2HK) == dict_from_text(T2HK_TEXT@),
        dictionary_for(ConvertType::HK2T) == dict_from_text(HK2T_TEXT@),
        dictionary_for(ConvertType::JP2T) == dict_from_text(JP_TEXT@),
{
}

/// The built-in dictionary text of a direction.
pub fn raw_text(ct: ConvertType) -> (r: &'static str)
    ensures
        r@ == dictionary_text(ct),
{
    match ct {
        ConvertType::T2S => T2S_TEXT,
        ConvertType::S2T => S2T_TEXT,
        ConvertType::TW2CN => TW2CN_TEXT,
        ConvertType::CN2TW => CN2TW_TEXT,
        ConvertType::T2HK => T2HK_TEXT,
        ConvertType::HK2T => HK2T_TEXT,
        ConvertType::JP2T => JP_TEXT,
    }
}

} // verus!
